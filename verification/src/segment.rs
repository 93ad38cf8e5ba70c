//! The minimum-cost decoder: a one-pass dynamic program over the automaton,
//! and the back-trace that collects per-pass statistics.

use crate::automaton::{
    automaton_ok, build_automaton, is_prefix_of, is_suffix_of, lemma_scan_char,
    lemma_suffix_of_suffix, lemma_suffix_trans, lemma_walk_char, lemma_walk_extend,
    lemma_walk_nonempty, state_core_ok, state_trans_ok, trans_ok, SuffixState,
};
use crate::stats::{StatsModel, TokenStats};
use crate::tokens::{lemma_lookup, same_strings, same_token_mod_suffix, TokenSet, VocabModel};
use vstd::prelude::*;

verus! {

/// Cost of emitting the token the reverse map names for string `s`: 1 when a
/// non-literal carries the string, else the literal cost.
pub open spec fn cost_of_str(vm: VocabModel, s: Seq<u8>) -> int {
    if vm.has_nonliteral(s) {
        1
    } else {
        vm.literal_cost
    }
}

/// Minimum of an optional running best and an optional new candidate of
/// value `p + c`; `None` stands for "no segmentation".
pub open spec fn opt_min_plus(rest: Option<int>, prev: Option<int>, c: int) -> Option<int> {
    match prev {
        None => rest,
        Some(p) => match rest {
            None => Some(p + c),
            Some(r) => Some(
                if p + c < r {
                    p + c
                } else {
                    r
                },
            ),
        },
    }
}

/// Minimum cost of segmenting the first `i` bytes when the final token has
/// length at least `l`; `None` when no such segmentation exists.
pub open spec fn len_min_from(vm: VocabModel, bytes: Seq<u8>, i: int, l: int) -> Option<int>
    decreases i, i + 1 - l,
{
    if i <= 0 || l > i || l <= 0 {
        None
    } else {
        let rest = len_min_from(vm, bytes, i, l + 1);
        let s = bytes.subrange(i - l, i);
        if vm.has_str(s) {
            let prev = if i == l {
                Some(0int)
            } else {
                len_min_from(vm, bytes, i - l, 1)
            };
            opt_min_plus(rest, prev, cost_of_str(vm, s))
        } else {
            rest
        }
    }
}

/// Minimum cost of any segmentation of the first `i` bytes into tokens.
pub open spec fn min_cost(vm: VocabModel, bytes: Seq<u8>, i: int) -> Option<int> {
    if i <= 0 {
        Some(0int)
    } else {
        len_min_from(vm, bytes, i, 1)
    }
}

/// Final-token lengths in `[a, b)` that are not token strings do not affect
/// the minimum.
pub proof fn lemma_len_min_gap(vm: VocabModel, bytes: Seq<u8>, i: int, a: int, b: int)
    requires
        1 <= a <= b,
        forall|l: int|
            a <= l < b && l <= i ==> !vm.has_str(#[trigger] bytes.subrange(i - l, i)),
    ensures
        len_min_from(vm, bytes, i, a) == len_min_from(vm, bytes, i, b),
    decreases b - a,
{
    if a < b {
        lemma_len_min_gap(vm, bytes, i, a + 1, b);
    }
}

/// The final-token length the decoder records at position `i`, scanning
/// candidate lengths downward from `l`: the longest token-string suffix
/// whose candidate value achieves the minimum.  This is exactly the first
/// strict minimum met on the longest-first suffix-chain walk.
pub open spec fn pick_len(vm: VocabModel, bytes: Seq<u8>, i: int, l: int) -> int
    decreases l,
{
    if l <= 0 || i <= 0 {
        0
    } else if l <= i && vm.has_str(bytes.subrange(i - l, i)) && (match min_cost(
        vm,
        bytes,
        i - l,
    ) {
        Some(p) => min_cost(vm, bytes, i) == Some(p + cost_of_str(vm, bytes.subrange(i - l, i))),
        None => false,
    }) {
        l
    } else {
        pick_len(vm, bytes, i, l - 1)
    }
}

/// The final-token length recorded at position `i`.
pub open spec fn chosen_len(vm: VocabModel, bytes: Seq<u8>, i: int) -> int {
    pick_len(vm, bytes, i, i)
}

/// The token index recorded at position `i`: the reverse-map entry of the
/// chosen final string.
pub open spec fn chosen_tok(vm: VocabModel, bytes: Seq<u8>, i: int) -> int {
    match vm.lookup(bytes.subrange(i - chosen_len(vm, bytes, i), i)) {
        Some(j) => j,
        None => 0,
    }
}

/// The exact token sequence the decoder emits for the first `i` bytes.
pub open spec fn opt_trace(vm: VocabModel, bytes: Seq<u8>, i: int) -> Seq<int>
    decreases i,
{
    if i <= 0 {
        Seq::empty()
    } else {
        let l = chosen_len(vm, bytes, i);
        if 1 <= l <= i {
            opt_trace(vm, bytes, i - l).push(chosen_tok(vm, bytes, i))
        } else {
            Seq::empty()
        }
    }
}

/// No token-string suffix longer than `lbt` ends position `i` at candidate
/// value `c` or better.
pub open spec fn no_better_above(vm: VocabModel, bytes: Seq<u8>, i: int, lbt: int, c: int) -> bool {
    forall|l: int|
        lbt < l <= i && vm.has_str(#[trigger] bytes.subrange(i - l, i)) ==> (match min_cost(
            vm,
            bytes,
            i - l,
        ) {
            Some(p) => p + cost_of_str(vm, bytes.subrange(i - l, i)) > c,
            None => true,
        })
}

/// When `lbt` achieves the minimum and nothing longer does, the decoder
/// records exactly `lbt`.
pub proof fn lemma_pick_len_finds(vm: VocabModel, bytes: Seq<u8>, i: int, l: int, lbt: int, c: int)
    requires
        1 <= lbt <= l <= i,
        min_cost(vm, bytes, i) == Some(c),
        vm.has_str(bytes.subrange(i - lbt, i)),
        min_cost(vm, bytes, i - lbt) == Some(c - cost_of_str(vm, bytes.subrange(i - lbt, i))),
        no_better_above(vm, bytes, i, lbt, c),
    ensures
        pick_len(vm, bytes, i, l) == lbt,
    decreases l,
{
    if l == lbt {
    } else {
        if vm.has_str(bytes.subrange(i - l, i)) {
            assert(match min_cost(vm, bytes, i - l) {
                Some(p) => p + cost_of_str(vm, bytes.subrange(i - l, i)) > c,
                None => true,
            });
        }
        lemma_pick_len_finds(vm, bytes, i, l - 1, lbt, c);
    }
}

/// The reverse-map entry for a string has the cheapest cost among tokens
/// carrying that string: exactly `cost_of_str`.
pub proof fn lemma_rep_cost(vm: VocabModel, s: Seq<u8>, j: int)
    requires
        vm.wf(),
        vm.lookup(s) == Some(j),
    ensures
        0 <= j < vm.n(),
        vm.str_at(j) == s,
        vm.toks[j].cost == cost_of_str(vm, s),
        1 <= vm.toks[j].cost <= vm.literal_cost,
{
    lemma_lookup(vm, s);
    if j >= 256 {
        assert(vm.has_nonliteral(s));
    } else {
        if vm.has_nonliteral(s) {
            let w = choose|w: int| 256 <= w < vm.n() && vm.str_at(w) == s;
            assert(vm.str_at(w) != s);
        }
    }
}

/// No token string is a suffix of `x` longer than the one the walked state
/// reports.
pub proof fn lemma_no_longer_candidates(vm: VocabModel, x: Seq<u8>, t0: int)
    requires
        vm.wf(),
        vm.longest_tok_suffix(vm.walk_target(x)) == Some(t0),
    ensures
        0 <= t0 < vm.n(),
        vm.lookup(vm.str_at(t0)) == Some(t0),
        1 <= vm.str_at(t0).len() <= x.len(),
        is_suffix_of(vm.str_at(t0), x),
        forall|l: int|
            vm.str_at(t0).len() < l && l <= x.len() ==> !vm.has_str(
                #[trigger] x.subrange(x.len() - l, x.len() as int),
            ),
{
    let sigma = vm.walk_target(x);
    lemma_walk_char(vm, x, 0);
    lemma_scan_char(vm, sigma, 0);
    lemma_suffix_trans(vm.str_at(t0), sigma, x);
    assert forall|l: int|
        vm.str_at(t0).len() < l && l <= x.len() implies !vm.has_str(
        #[trigger] x.subrange(x.len() - l, x.len() as int),
    ) by {
        let sp = x.subrange(x.len() - l, x.len() as int);
        if vm.has_str(sp) {
            lemma_lookup(vm, sp);
            let w = vm.lookup(sp).unwrap();
            assert(vm.str_at(w) == sp);
            assert(sp =~= vm.str_at(w).subrange(0, sp.len() as int));
            assert(is_prefix_of(sp, vm.str_at(w)));
            assert(vm.is_tok_prefix(x.subrange(x.len() - l, x.len() as int)));
            assert(l <= sigma.len());
            assert(is_suffix_of(sp, x));
            lemma_suffix_of_suffix(sp, sigma, x);
            assert(sp =~= sigma.subrange(sigma.len() - l, sigma.len() as int));
            assert(vm.has_str(sigma.subrange(sigma.len() - l, sigma.len() as int)));
            assert(sigma.len() - (sigma.len() - l) <= vm.str_at(t0).len());
            assert(false);
        }
    }
}

/// `suffix_link_from` and `tok_suffix_from` scan identically.
pub proof fn lemma_link_is_scan(vm: VocabModel, s: Seq<u8>, start: int)
    requires
        1 <= start,
    ensures
        vm.suffix_link_from(s, start) == vm.tok_suffix_from(s, start),
    decreases s.len() - start,
{
    if start < s.len() {
        lemma_link_is_scan(vm, s, start + 1);
    }
}

/// Between a token ending at the end of `x` and its suffix link, no other
/// token string is a suffix of `x`; below a token with no suffix link, none
/// is.
pub proof fn lemma_chain_step(vm: VocabModel, x: Seq<u8>, t: int)
    requires
        vm.wf(),
        0 <= t < vm.n(),
        is_suffix_of(vm.str_at(t), x),
        1 <= vm.str_at(t).len(),
    ensures
        match vm.suffix_link_of(vm.str_at(t)) {
            Some(j) => {
                &&& 0 <= j < vm.n()
                &&& vm.lookup(vm.str_at(j)) == Some(j)
                &&& 1 <= vm.str_at(j).len() < vm.str_at(t).len()
                &&& is_suffix_of(vm.str_at(j), x)
                &&& forall|l: int|
                    vm.str_at(j).len() < l && l < vm.str_at(t).len() ==> !vm.has_str(
                        #[trigger] x.subrange(x.len() - l, x.len() as int),
                    )
            },
            None => forall|l: int|
                1 <= l && l < vm.str_at(t).len() ==> !vm.has_str(
                    #[trigger] x.subrange(x.len() - l, x.len() as int),
                ),
        },
{
    let s = vm.str_at(t);
    lemma_link_is_scan(vm, s, 1);
    lemma_scan_char(vm, s, 1);
    match vm.suffix_link_of(s) {
        Some(j) => {
            lemma_suffix_trans(vm.str_at(j), s, x);
            assert forall|l: int|
                vm.str_at(j).len() < l && l < s.len() implies !vm.has_str(
                #[trigger] x.subrange(x.len() - l, x.len() as int),
            ) by {
                let sp = x.subrange(x.len() - l, x.len() as int);
                if vm.has_str(sp) {
                    assert(is_suffix_of(sp, x));
                    lemma_suffix_of_suffix(sp, s, x);
                    assert(sp =~= s.subrange(s.len() - l, s.len() as int));
                    assert(vm.has_str(s.subrange(s.len() - l, s.len() as int)));
                    assert(s.len() - (s.len() - l) <= vm.str_at(j).len());
                    assert(false);
                }
            }
        },
        None => {
            assert forall|l: int|
                1 <= l && l < s.len() implies !vm.has_str(
                #[trigger] x.subrange(x.len() - l, x.len() as int),
            ) by {
                let sp = x.subrange(x.len() - l, x.len() as int);
                if vm.has_str(sp) {
                    assert(is_suffix_of(sp, x));
                    lemma_suffix_of_suffix(sp, s, x);
                    assert(sp =~= s.subrange(s.len() - l, s.len() as int));
                    assert(vm.has_str(s.subrange(s.len() - l, s.len() as int)));
                    assert(false);
                }
            }
        },
    }
}


/// One cell of the dynamic program: the minimum cost of the bytes read so
/// far, and the final token of one optimal segmentation.
pub struct DynState {
    pub cost: usize,
    pub token: Option<usize>,
}

/// Every cell past the first names a token that fits inside the prefix it
/// ends.
pub open spec fn cells_linked(vm: VocabModel, cells: Seq<DynState>) -> bool {
    forall|j: int|
        1 <= j < cells.len() ==> match (#[trigger] cells[j]).token {
            Some(t) => 0 <= t < vm.n() && 1 <= vm.str_at(t as int).len() <= j,
            None => false,
        }
}

/// Cell `j` records the minimum segmentation cost of the first `j` bytes,
/// and a final token achieving it.
pub open spec fn cell_ok(vm: VocabModel, bytes: Seq<u8>, cells: Seq<DynState>, j: int) -> bool {
    match cells[j].token {
        Some(t) => {
            let l = vm.str_at(t as int).len() as int;
            &&& 0 <= t < vm.n()
            &&& 1 <= l <= j
            &&& vm.str_at(t as int) == bytes.subrange(j - l, j)
            &&& vm.lookup(bytes.subrange(j - l, j)) == Some(t as int)
            &&& l == chosen_len(vm, bytes, j)
            &&& min_cost(vm, bytes, j - l) == Some(cells[j].cost - vm.toks[t as int].cost)
            &&& min_cost(vm, bytes, j) == Some(cells[j].cost as int)
            &&& cells[j].cost as int <= j * vm.literal_cost
        },
        None => false,
    }
}

/// The finished dynamic program for `bytes`.
pub open spec fn cells_ok(vm: VocabModel, bytes: Seq<u8>, cells: Seq<DynState>) -> bool {
    &&& cells.len() == bytes.len() + 1
    &&& cells[0].cost == 0
    &&& cells[0].token is None
    &&& forall|j: int| 1 <= j < cells.len() ==> cell_ok(vm, bytes, cells, j)
}

/// The token sequence recovered by back-tracing the cells from `pos`.
pub open spec fn trace_from(vm: VocabModel, cells: Seq<DynState>, pos: int) -> Seq<int>
    decreases pos,
{
    if pos <= 0 {
        Seq::empty()
    } else {
        match cells[pos].token {
            Some(t) => {
                let l = vm.str_at(t as int).len() as int;
                if 1 <= l <= pos {
                    trace_from(vm, cells, pos - l).push(t as int)
                } else {
                    Seq::empty()
                }
            },
            None => Seq::empty(),
        }
    }
}

/// How many entries of `tr` equal `t`.
pub open spec fn count_tok(tr: Seq<int>, t: int) -> int
    decreases tr.len(),
{
    if tr.len() == 0 {
        0
    } else {
        count_tok(tr.drop_last(), t) + if tr.last() == t {
            1int
        } else {
            0int
        }
    }
}

/// The entry after position `k`, with 0 as the end-of-buffer sentinel.
pub open spec fn pair_next(tr: Seq<int>, k: int) -> int {
    if k + 1 < tr.len() {
        tr[k + 1]
    } else {
        0
    }
}

/// How many positions `k < m` of `tr` hold `a` followed by `b`.
pub open spec fn count_pair_upto(tr: Seq<int>, a: int, b: int, m: int) -> int
    decreases m,
{
    if m <= 0 {
        0
    } else {
        count_pair_upto(tr, a, b, m - 1) + if tr[m - 1] == a && pair_next(tr, m - 1) == b {
            1int
        } else {
            0int
        }
    }
}

/// How many positions of `tr` hold `a` followed by `b` (sentinel 0 after the
/// final entry).
pub open spec fn count_pair(tr: Seq<int>, a: int, b: int) -> int {
    count_pair_upto(tr, a, b, tr.len() as int)
}

/// Counts never exceed the sequence length.
pub proof fn lemma_count_tok_le(tr: Seq<int>, t: int)
    ensures
        0 <= count_tok(tr, t) <= tr.len(),
    decreases tr.len(),
{
    if tr.len() > 0 {
        lemma_count_tok_le(tr.drop_last(), t);
    }
}

/// Pair counts never exceed the prefix length.
pub proof fn lemma_count_pair_le(tr: Seq<int>, a: int, b: int, m: int)
    requires
        m <= tr.len(),
    ensures
        0 <= count_pair_upto(tr, a, b, m) <= if m >= 0 {
            m
        } else {
            0
        },
    decreases m,
{
    if m > 0 {
        lemma_count_pair_le(tr, a, b, m - 1);
    }
}

/// Prepending one entry raises exactly its own count by one.
pub proof fn lemma_count_tok_prepend(tr: Seq<int>, t: int, u: int)
    ensures
        count_tok(seq![t] + tr, u) == count_tok(tr, u) + if t == u {
            1int
        } else {
            0int
        },
    decreases tr.len(),
{
    let s = seq![t] + tr;
    assert(s.len() == tr.len() + 1);
    if tr.len() == 0 {
        assert(s =~= seq![t]);
        assert(s.last() == t);
        assert(s.drop_last() =~= Seq::<int>::empty());
        assert(count_tok(s.drop_last(), u) == 0);
        assert(count_tok(s, u) == count_tok(s.drop_last(), u) + if s.last() == u {
            1int
        } else {
            0int
        });
    } else {
        lemma_count_tok_prepend(tr.drop_last(), t, u);
        assert(s.drop_last() =~= seq![t] + tr.drop_last());
        assert(s.last() == tr.last());
        assert(count_tok(s, u) == count_tok(s.drop_last(), u) + if s.last() == u {
            1int
        } else {
            0int
        });
        assert(count_tok(tr, u) == count_tok(tr.drop_last(), u) + if tr.last() == u {
            1int
        } else {
            0int
        });
    }
}

/// Prepending one entry raises exactly one pair bucket by one: the bucket of
/// the new entry and the previous front (or the sentinel).
pub proof fn lemma_count_pair_prepend(tr: Seq<int>, t: int, a: int, b: int, m: int)
    requires
        1 <= m <= tr.len() + 1,
    ensures
        count_pair_upto(seq![t] + tr, a, b, m) == count_pair_upto(tr, a, b, m - 1) + if t == a
            && pair_next(seq![t] + tr, 0) == b {
            1int
        } else {
            0int
        },
    decreases m,
{
    let s = seq![t] + tr;
    assert(s.len() == tr.len() + 1);
    assert(s[0] == t);
    if m == 1 {
        assert(count_pair_upto(s, a, b, 1) == count_pair_upto(s, a, b, 0) + if s[0] == a
            && pair_next(s, 0) == b {
            1int
        } else {
            0int
        });
        assert(count_pair_upto(s, a, b, 0) == 0);
        assert(count_pair_upto(tr, a, b, 0) == 0);
    } else {
        lemma_count_pair_prepend(tr, t, a, b, m - 1);
        assert(s[m - 1] == tr[m - 2]);
        assert(pair_next(s, m - 1) == pair_next(tr, m - 2));
        assert(count_pair_upto(s, a, b, m) == count_pair_upto(s, a, b, m - 1) + if s[m - 1] == a
            && pair_next(s, m - 1) == b {
            1int
        } else {
            0int
        });
        assert(count_pair_upto(tr, a, b, m - 1) == count_pair_upto(tr, a, b, m - 2) + if tr[m - 2]
            == a && pair_next(tr, m - 2) == b {
            1int
        } else {
            0int
        });
    }
}

/// A back-trace emits at most one token per byte.
pub proof fn lemma_trace_len(vm: VocabModel, cells: Seq<DynState>, pos: int)
    ensures
        trace_from(vm, cells, pos).len() <= if pos >= 0 {
            pos
        } else {
            0
        },
    decreases pos,
{
    if pos > 0 {
        match cells[pos].token {
            Some(t) => {
                let l = vm.str_at(t as int).len() as int;
                if 1 <= l <= pos {
                    lemma_trace_len(vm, cells, pos - l);
                }
            },
            None => {},
        }
    }
}


/// A finished cell array back-traces to exactly the pinned token sequence.
pub proof fn lemma_trace_is_opt(vm: VocabModel, bytes: Seq<u8>, cells: Seq<DynState>, pos: int)
    requires
        cells_ok(vm, bytes, cells),
        0 <= pos <= bytes.len(),
    ensures
        trace_from(vm, cells, pos) == opt_trace(vm, bytes, pos),
    decreases pos,
{
    if pos > 0 {
        assert(cell_ok(vm, bytes, cells, pos));
        let t = cells[pos].token.unwrap() as int;
        let l = vm.str_at(t).len() as int;
        assert(chosen_tok(vm, bytes, pos) == t);
        lemma_trace_is_opt(vm, bytes, cells, pos - l);
    }
}

/// The complete statistics of one pass over `bytes`: the counts and
/// adjacent-pair counts of the pinned token sequence, its minimum cost, and
/// the length scanned.
pub open spec fn slice_stats(vm: VocabModel, bytes: Seq<u8>) -> StatsModel {
    StatsModel {
        counts: Seq::new(
            vm.n() as nat,
            |t: int| count_tok(opt_trace(vm, bytes, bytes.len() as int), t),
        ),
        pairs: Seq::new(
            (vm.n() * vm.n()) as nat,
            |p: int|
                count_pair(opt_trace(vm, bytes, bytes.len() as int), p / vm.n(), p % vm.n()),
        ),
        cost: match min_cost(vm, bytes, bytes.len() as int) {
            Some(c) => c,
            None => 0,
        },
        scanned: bytes.len() as int,
    }
}

/// The pinned choice depends only on the token strings and the literal
/// cost.
pub proof fn lemma_pick_len_congruent(a: VocabModel, b: VocabModel, bytes: Seq<u8>, i: int, l: int)
    requires
        same_strings(a, b),
        a.literal_cost == b.literal_cost,
    ensures
        pick_len(a, bytes, i, l) == pick_len(b, bytes, i, l),
    decreases l,
{
    if l <= 0 || i <= 0 {
    } else {
        if l <= i {
            let sub = bytes.subrange(i - l, i);
            lemma_has_str_congruent(a, b, sub);
            lemma_min_cost_congruent(a, b, bytes, i - l);
            lemma_min_cost_congruent(a, b, bytes, i);
        }
        lemma_pick_len_congruent(a, b, bytes, i, l - 1);
    }
}

/// The pinned token sequence depends only on the token strings and the
/// literal cost.
pub proof fn lemma_opt_trace_congruent(a: VocabModel, b: VocabModel, bytes: Seq<u8>, i: int)
    requires
        same_strings(a, b),
        a.literal_cost == b.literal_cost,
    ensures
        opt_trace(a, bytes, i) == opt_trace(b, bytes, i),
    decreases i,
{
    if i > 0 {
        lemma_pick_len_congruent(a, b, bytes, i, i);
        let l = chosen_len(a, bytes, i);
        if 1 <= l <= i {
            crate::tokens::lemma_lookup_congruent(a, b, bytes.subrange(i - l, i), a.n());
            lemma_opt_trace_congruent(a, b, bytes, i - l);
        }
    }
}

/// Per-pass statistics depend only on the token strings and the literal
/// cost.
pub proof fn lemma_slice_stats_congruent(a: VocabModel, b: VocabModel, bytes: Seq<u8>)
    requires
        same_strings(a, b),
        a.literal_cost == b.literal_cost,
    ensures
        slice_stats(a, bytes) == slice_stats(b, bytes),
{
    lemma_opt_trace_congruent(a, b, bytes, bytes.len() as int);
    lemma_min_cost_congruent(a, b, bytes, bytes.len() as int);
    assert(slice_stats(a, bytes) =~= slice_stats(b, bytes));
}

/// A segmenter: a catalog with current suffix links, its compiled automaton,
/// and the cell array of the most recent pass.
pub struct Tokenizer {
    pub token_set: TokenSet,
    pub suffix_states: Vec<SuffixState>,
    pub cost_array: Vec<DynState>,
}

impl Tokenizer {
    /// The catalog is well-formed with current suffix links, and the
    /// automaton was built from it.
    pub open spec fn wf(self) -> bool {
        &&& self.token_set@.wf()
        &&& self.token_set@.suffixes_ok()
        &&& automaton_ok(self.token_set@, self.suffix_states@)
    }

    /// Builds a segmenter: recomputes suffix links, then compiles the
    /// automaton.
    pub fn new(token_set: TokenSet) -> (r: Tokenizer)
        requires
            token_set@.wf(),
        ensures
            r.wf(),
            same_strings(token_set@, r.token_set@),
            r.token_set@.literal_cost == token_set@.literal_cost,
            r.token_set@.fallback16 == token_set@.fallback16,
            forall|i: int| 0 <= i < token_set@.n() ==> same_token_mod_suffix(
                token_set@.toks[i],
                #[trigger] r.token_set@.toks[i],
            ),
            r.cost_array@.len() == 0,
    {
        let mut ts = token_set;
        ts.generate_suffixes();
        let suffix_states = build_automaton(&ts);
        Tokenizer { token_set: ts, suffix_states, cost_array: Vec::new() }
    }

    /// Back-traces a finished cell array, counting each emitted token and
    /// each adjacent pair (bucket `token * n + follower`, follower 0 at the
    /// end of the buffer), and recording the total cost and bytes scanned.
    #[verifier::spinoff_prover]
    pub fn get_stats(&self, cost_array: &Vec<DynState>) -> (r: TokenStats)
        requires
            self.token_set@.wf(),
            cost_array@.len() >= 1,
            cells_linked(self.token_set@, cost_array@),
            self.token_set@.n() * self.token_set@.n() <= usize::MAX,
        ensures
            ({
                let vm = self.token_set@;
                let ll = cost_array@.len() - 1;
                let tr = trace_from(vm, cost_array@, ll as int);
                &&& r.cost == cost_array@[ll as int].cost
                &&& r.scanned_bytes == ll
                &&& r.token_count@.len() == vm.n()
                &&& r.pair_count@.len() == vm.n() * vm.n()
                &&& forall|t: int| 0 <= t < vm.n() ==> #[trigger] r.token_count@[t] == count_tok(
                    tr,
                    t,
                )
                &&& forall|p: int|
                    0 <= p < vm.n() * vm.n() ==> #[trigger] r.pair_count@[p] == count_pair(
                        tr,
                        p / vm.n(),
                        p % vm.n(),
                    )
                &&& forall|t: int| 0 <= t < vm.n() ==> #[trigger] r.token_count@[t] <= ll
                &&& forall|p: int| 0 <= p < vm.n() * vm.n() ==> #[trigger] r.pair_count@[p] <= ll
            }),
    {
        let ghost vm = self.token_set@;
        let n = self.token_set.tokens.len();
        let mut stats = TokenStats::new(&self.token_set);
        let ll = cost_array.len() - 1;
        stats.cost = cost_array[ll].cost;
        stats.scanned_bytes = ll;
        let ghost full = trace_from(vm, cost_array@, ll as int);
        let mut pos = ll;
        let mut next_token_id: usize = 0;
        let ghost done = Seq::<int>::empty();
        let mut done_len: usize = 0;
        proof {
            assert(full =~= trace_from(vm, cost_array@, pos as int) + done);
            assert forall|t: int| 0 <= t < n implies #[trigger] stats.token_count@[t] == 0 by {
                assert(stats@.counts[t] == 0);
            }
            assert forall|p: int| 0 <= p < n * n implies #[trigger] stats.pair_count@[p] == 0 by {
                assert(stats@.pairs[p] == 0);
            }
        }
        while pos > 0
            invariant
                pos <= ll,
                ll == cost_array@.len() - 1,
                vm == self.token_set@,
                vm.wf(),
                cells_linked(vm, cost_array@),
                n == vm.n(),
                vm.n() * vm.n() <= usize::MAX,
                full == trace_from(vm, cost_array@, ll as int),
                full == trace_from(vm, cost_array@, pos as int) + done,
                done.len() == done_len,
                done_len <= ll - pos,
                next_token_id as int == if done.len() > 0 {
                    done[0]
                } else {
                    0
                },
                next_token_id < n || next_token_id == 0,
                stats.token_count@.len() == n,
                stats.pair_count@.len() == n * n,
                forall|t: int| 0 <= t < n ==> #[trigger] stats.token_count@[t] == count_tok(
                    done,
                    t,
                ),
                forall|p: int|
                    0 <= p < n * n ==> #[trigger] stats.pair_count@[p] == count_pair(
                        done,
                        p / n as int,
                        p % n as int,
                    ),
                stats.cost == cost_array@[ll as int].cost,
                stats.scanned_bytes == ll,
            decreases pos,
        {
            let token_id = match cost_array[pos].token {
                Some(t) => t,
                None => {
                    proof {
                        assert(false);
                    }
                    0
                },
            };
            let tlen = self.token_set.tokens[token_id].string.len();
            let c = stats.token_count[token_id];
            proof {
                lemma_count_tok_le(done, token_id as int);
            }
            stats.token_count.set(token_id, c + 1);
            proof {
                assert((token_id as int) * (n as int) + (next_token_id as int) < (n as int) * (
                n as int)) by (nonlinear_arith)
                    requires
                        0 <= (token_id as int) < (n as int),
                        0 <= (next_token_id as int) < (n as int),
                ;
            }
            let idx = token_id * n + next_token_id;
            let pc = stats.pair_count[idx];
            proof {
                assert((idx as int) / (n as int) == token_id as int && (idx as int) % (n as int)
                    == next_token_id as int) by (nonlinear_arith)
                    requires
                        idx as int == (token_id as int) * (n as int) + (next_token_id as int),
                        0 <= (token_id as int) < (n as int),
                        0 <= (next_token_id as int) < (n as int),
                ;
                assert(stats.pair_count@[idx as int] == count_pair(
                    done,
                    token_id as int,
                    next_token_id as int,
                ));
                lemma_count_pair_le(done, token_id as int, next_token_id as int, done.len() as int);
            }
            stats.pair_count.set(idx, pc + 1);
            let ghost old_done = done;
            proof {
                done = seq![token_id as int] + old_done;
                assert(trace_from(vm, cost_array@, pos as int) == trace_from(
                    vm,
                    cost_array@,
                    pos - tlen,
                ).push(token_id as int));
                assert(full =~= trace_from(vm, cost_array@, pos - tlen) + done);
                assert(done[0] == token_id as int);
                assert forall|t: int| 0 <= t < n implies count_tok(done, t) == count_tok(
                    old_done,
                    t,
                ) + if token_id as int == t {
                    1int
                } else {
                    0int
                } by {
                    lemma_count_tok_prepend(old_done, token_id as int, t);
                }
                assert(pair_next(done, 0) == next_token_id as int);
                assert forall|p: int| 0 <= p < n * n implies #[trigger] stats.pair_count@[p]
                    == count_pair(done, p / n as int, p % n as int) by {
                    let a = p / n as int;
                    let b = p % n as int;
                    assert(0 <= a < n && 0 <= b < n && p == a * (n as int) + b)
                        by (nonlinear_arith)
                        requires
                            0 <= p < (n as int) * (n as int),
                            (n as int) > 0,
                            a == p / n as int,
                            b == p % n as int,
                    ;
                    lemma_count_pair_prepend(old_done, token_id as int, a, b, done.len() as int);
                    if a == token_id as int && b == next_token_id as int {
                        assert(p == idx as int) by (nonlinear_arith)
                            requires
                                p == a * (n as int) + b,
                                a == token_id as int,
                                b == next_token_id as int,
                                idx as int == (token_id as int) * (n as int) + (
                                next_token_id as int),
                        ;
                    } else {
                        assert(p != idx as int) by (nonlinear_arith)
                            requires
                                p == a * (n as int) + b,
                                idx as int == (token_id as int) * (n as int) + (
                                next_token_id as int),
                                0 <= a < (n as int),
                                0 <= b < (n as int),
                                0 <= (token_id as int) < (n as int),
                                0 <= (next_token_id as int) < (n as int),
                                a != token_id as int || b != next_token_id as int,
                        ;
                    }
                }
            }
            next_token_id = token_id;
            done_len = done_len + 1;
            pos = pos - tlen;
        }
        proof {
            assert(trace_from(vm, cost_array@, 0) =~= Seq::<int>::empty());
            assert(done =~= full);
            assert forall|t: int| 0 <= t < n implies #[trigger] stats.token_count@[t]
                <= ll as int by {
                lemma_count_tok_le(done, t);
            }
            assert forall|p: int| 0 <= p < n * n implies #[trigger] stats.pair_count@[p]
                <= ll as int by {
                lemma_count_pair_le(done, p / n as int, p % n as int, done.len() as int);
            }
        }
        stats
    }
}


/// Token `t` ends one optimal segmentation of the first `i` bytes at total
/// cost `c`.
pub open spec fn best_witness(vm: VocabModel, bytes: Seq<u8>, i: int, t: int, c: int) -> bool {
    let l = vm.str_at(t).len() as int;
    &&& 0 <= t < vm.n()
    &&& 1 <= l <= i
    &&& vm.str_at(t) == bytes.subrange(i - l, i)
    &&& vm.lookup(bytes.subrange(i - l, i)) == Some(t)
    &&& min_cost(vm, bytes, i - l) == Some(c - vm.toks[t].cost)
    &&& c <= i * vm.literal_cost
}

impl Tokenizer {
    /// Segments `bytes`: walks the automaton, fills the cell array with the
    /// minimum segmentation cost of every byte prefix, and returns the
    /// statistics of one optimal segmentation.
    #[verifier::loop_isolation(false)]
    #[verifier::rlimit(60)]
    #[verifier::spinoff_prover]
    pub fn process_slice(&mut self, bytes: &[u8]) -> (r: TokenStats)
        requires
            old(self).wf(),
            bytes@.len() * old(self).token_set@.literal_cost <= usize::MAX,
            old(self).token_set@.n() * old(self).token_set@.n() <= usize::MAX,
        ensures
            final(self).wf(),
            final(self).token_set == old(self).token_set,
            final(self).suffix_states == old(self).suffix_states,
            cells_ok(old(self).token_set@, bytes@, final(self).cost_array@),
            ({
                let vm = old(self).token_set@;
                let ll = bytes@.len() as int;
                let tr = trace_from(vm, final(self).cost_array@, ll);
                &&& min_cost(vm, bytes@, ll) == Some(r.cost as int)
                &&& r.cost == final(self).cost_array@[ll].cost
                &&& r.scanned_bytes == bytes@.len()
                &&& r.token_count@.len() == vm.n()
                &&& r.pair_count@.len() == vm.n() * vm.n()
                &&& forall|t: int|
                    0 <= t < vm.n() ==> #[trigger] r.token_count@[t] == count_tok(tr, t)
                &&& forall|p: int|
                    0 <= p < vm.n() * vm.n() ==> #[trigger] r.pair_count@[p] == count_pair(
                        tr,
                        p / vm.n(),
                        p % vm.n(),
                    )
                &&& r@ == slice_stats(vm, bytes@)
                &&& r@.bounded(vm.literal_cost)
                &&& r@.wf_for(vm.n())
            }),
    {
        let ghost vm = old(self).token_set@;
        self.cost_array.clear();
        self.cost_array.push(DynState { cost: 0, token: None });
        let len = bytes.len();
        let mut state_idx: usize = 0;
        let mut idx: usize = 0;
        proof {
            assert(state_core_ok(vm, self.suffix_states@, 0));
            assert(bytes@.subrange(0, 0) =~= Seq::<u8>::empty());
            assert(vm.walk_target(Seq::<u8>::empty()) =~= Seq::<u8>::empty());
            assert(self.suffix_states@[0].suffix@ =~= Seq::<u8>::empty());
        }
        while idx < len
            invariant
                idx <= len,
                self.token_set == old(self).token_set,
                self.suffix_states == old(self).suffix_states,
                self.cost_array@.len() == idx + 1,
                self.cost_array@[0].cost == 0,
                self.cost_array@[0].token is None,
                forall|j: int| 1 <= j <= idx ==> cell_ok(vm, bytes@, self.cost_array@, j),
                state_idx < self.suffix_states@.len(),
                self.suffix_states@[state_idx as int].suffix@ == vm.walk_target(
                    bytes@.subrange(0, idx as int),
                ),
            decreases len - idx,
        {
            let byte = bytes[idx];
            let ghost x_prev = bytes@.subrange(0, idx as int);
            let ghost x_cur = bytes@.subrange(0, idx as int + 1);
            proof {
                assert(state_core_ok(vm, self.suffix_states@, state_idx as int));
                assert(state_trans_ok(vm, self.suffix_states@, state_idx as int));
                assert(trans_ok(vm, self.suffix_states@, state_idx as int, byte as int));
                lemma_walk_extend(vm, x_prev, byte);
                assert(x_cur =~= x_prev.push(byte));
                lemma_walk_nonempty(vm, x_prev, byte);
            }
            state_idx = self.suffix_states[state_idx].next[byte as usize];
            let i = idx + 1;
            proof {
                assert(self.suffix_states@[state_idx as int].suffix@ == vm.walk_target(x_cur));
                assert(state_core_ok(vm, self.suffix_states@, state_idx as int));
                assert(state_idx != 0);
            }
            let st_tid = self.suffix_states[state_idx].token_id;
            let ghost sigma = self.suffix_states@[state_idx as int].suffix@;
            proof {
                assert(vm.longest_tok_suffix(sigma) == Some(st_tid as int));
                lemma_no_longer_candidates(vm, x_cur, st_tid as int);
                let l0 = vm.str_at(st_tid as int).len() as int;
                assert forall|l: int|
                    l0 + 1 <= l < i + 1 && l <= i implies !vm.has_str(
                    #[trigger] bytes@.subrange(i - l, i as int),
                ) by {
                    assert(x_cur.subrange(x_cur.len() - l, x_cur.len() as int) =~= bytes@.subrange(
                        i - l,
                        i as int,
                    ));
                    assert(!vm.has_str(x_cur.subrange(x_cur.len() - l, x_cur.len() as int)));
                }
                lemma_len_min_gap(vm, bytes@, i as int, l0 + 1, i + 1);
                assert(len_min_from(vm, bytes@, i as int, i + 1) is None);
            }
            let mut tid = st_tid;
            let mut have = false;
            let mut best_cost: usize = 0;
            let mut best_tok: usize = 0;
            let mut chain_done = false;
            while !chain_done
                invariant
                    !chain_done ==> {
                        &&& tid < vm.n()
                        &&& vm.lookup(vm.str_at(tid as int)) == Some(tid as int)
                        &&& is_suffix_of(vm.str_at(tid as int), x_cur)
                        &&& 1 <= vm.str_at(tid as int).len() <= i
                        &&& (if have {
                            Some(best_cost as int)
                        } else {
                            None::<int>
                        }) == len_min_from(
                            vm,
                            bytes@,
                            i as int,
                            vm.str_at(tid as int).len() as int + 1,
                        )
                    },
                    chain_done ==> {
                        &&& have
                        &&& Some(best_cost as int) == min_cost(vm, bytes@, i as int)
                    },
                    i == idx + 1,
                    idx < len,
                    self.cost_array@.len() == i,
                    have ==> best_witness(vm, bytes@, i as int, best_tok as int, best_cost as int),
                    have ==> no_better_above(
                        vm,
                        bytes@,
                        i as int,
                        vm.str_at(best_tok as int).len() as int,
                        best_cost as int,
                    ),
                decreases (if chain_done {
                    0int
                } else {
                    vm.str_at(tid as int).len() as int + 1
                }),
            {
                let t_len = self.token_set.tokens[tid].string.len();
                let t_cost = self.token_set.tokens[tid].cost;
                let ghost s_l = vm.str_at(tid as int);
                let ghost lcur = s_l.len() as int;
                proof {
                    assert(s_l =~= bytes@.subrange(i - lcur, i as int));
                    assert(vm.has_str(bytes@.subrange(i - lcur, i as int)));
                }
                let prev_idx = self.cost_array.len() - t_len;
                let prev_cost = self.cost_array[prev_idx].cost;
                proof {
                    if prev_idx > 0 {
                        assert(cell_ok(vm, bytes@, self.cost_array@, prev_idx as int));
                    }
                    assert(min_cost(vm, bytes@, i - lcur) == Some(prev_cost as int));
                    assert(prev_cost as int <= (i - lcur) * vm.literal_cost);
                    assert(t_cost as int <= vm.literal_cost);
                    assert((i - lcur) * vm.literal_cost + vm.literal_cost <= (i as int)
                        * vm.literal_cost) by (nonlinear_arith)
                        requires
                            1 <= lcur,
                            lcur <= i,
                            vm.literal_cost >= 1,
                    ;
                    assert((i as int) * vm.literal_cost <= bytes@.len() * vm.literal_cost)
                        by (nonlinear_arith)
                        requires
                            i <= bytes@.len(),
                            vm.literal_cost >= 0,
                    ;
                }
                let new_cost = prev_cost + t_cost;
                proof {
                    lemma_rep_cost(vm, s_l, tid as int);
                    assert(len_min_from(vm, bytes@, i as int, lcur) == opt_min_plus(
                        len_min_from(vm, bytes@, i as int, lcur + 1),
                        if i as int == lcur {
                            Some(0int)
                        } else {
                            len_min_from(vm, bytes@, i - lcur, 1)
                        },
                        cost_of_str(vm, bytes@.subrange(i - lcur, i as int)),
                    ));
                    assert((if i as int == lcur {
                        Some(0int)
                    } else {
                        len_min_from(vm, bytes@, i - lcur, 1)
                    }) == Some(prev_cost as int));
                    assert(cost_of_str(vm, bytes@.subrange(i - lcur, i as int)) == t_cost as int);
                }
                let ghost had = have;
                let ghost old_best = best_cost;
                if !have || new_cost < best_cost {
                    best_cost = new_cost;
                    best_tok = tid;
                    have = true;
                }
                proof {
                    assert((if have {
                        Some(best_cost as int)
                    } else {
                        None::<int>
                    }) == len_min_from(vm, bytes@, i as int, lcur));
                    if !had || new_cost < old_best {
                        // a new first strict minimum: nothing longer beats it
                        assert forall|l: int|
                            lcur < l <= i && vm.has_str(
                                #[trigger] bytes@.subrange(i - l, i as int),
                            ) implies (match min_cost(vm, bytes@, i - l) {
                            Some(p) => p + cost_of_str(vm, bytes@.subrange(i - l, i as int))
                                > best_cost as int,
                            None => true,
                        }) by {
                            match min_cost(vm, bytes@, i - l) {
                                Some(p) => {
                                    lemma_len_min_le(vm, bytes@, i as int, lcur + 1, l, p);
                                },
                                None => {},
                            }
                        }
                        assert(no_better_above(
                            vm,
                            bytes@,
                            i as int,
                            vm.str_at(best_tok as int).len() as int,
                            best_cost as int,
                        ));
                    }
                }
                let suf = self.token_set.tokens[tid].suffix;
                proof {
                    assert(vm.suffix_ok_at(tid as int));
                    lemma_chain_step(vm, x_cur, tid as int);
                }
                match suf {
                    Some(t2) => {
                        proof {
                            let l2 = vm.str_at(t2 as int).len() as int;
                            assert forall|l: int|
                                l2 + 1 <= l < lcur && l <= i implies !vm.has_str(
                                #[trigger] bytes@.subrange(i - l, i as int),
                            ) by {
                                assert(bytes@.subrange(i - l, i as int) =~= x_cur.subrange(
                                    x_cur.len() - l,
                                    x_cur.len() as int,
                                ));
                                assert(!vm.has_str(
                                    x_cur.subrange(x_cur.len() - l, x_cur.len() as int),
                                ));
                            }
                            lemma_len_min_gap(vm, bytes@, i as int, l2 + 1, lcur);
                        }
                        tid = t2;
                    },
                    None => {
                        proof {
                            assert forall|l: int|
                                1 <= l < lcur && l <= i implies !vm.has_str(
                                #[trigger] bytes@.subrange(i - l, i as int),
                            ) by {
                                assert(bytes@.subrange(i - l, i as int) =~= x_cur.subrange(
                                    x_cur.len() - l,
                                    x_cur.len() as int,
                                ));
                                assert(!vm.has_str(
                                    x_cur.subrange(x_cur.len() - l, x_cur.len() as int),
                                ));
                            }
                            lemma_len_min_gap(vm, bytes@, i as int, 1, lcur);
                        }
                        chain_done = true;
                    },
                }
            }
            proof {
                // the recorded token is exactly the decoder's pinned choice
                let lbt = vm.str_at(best_tok as int).len() as int;
                lemma_rep_cost(vm, bytes@.subrange(i - lbt, i as int), best_tok as int);
                assert(vm.has_str(bytes@.subrange(i - lbt, i as int)));
                lemma_pick_len_finds(vm, bytes@, i as int, i as int, lbt, best_cost as int);
                assert(chosen_len(vm, bytes@, i as int) == lbt);
            }
            let ghost pre_cells = self.cost_array@;
            self.cost_array.push(DynState { cost: best_cost, token: Some(best_tok) });
            proof {
                assert forall|j: int| 1 <= j <= idx + 1 implies cell_ok(
                    vm,
                    bytes@,
                    self.cost_array@,
                    j,
                ) by {
                    if j <= idx {
                        assert(cell_ok(vm, bytes@, pre_cells, j));
                        assert(self.cost_array@[j] == pre_cells[j]);
                    } else {
                        assert(self.cost_array@[j].token == Some(best_tok));
                        assert(self.cost_array@[j].cost == best_cost);
                    }
                }
            }
            idx = idx + 1;
        }
        proof {
            assert(cells_ok(vm, bytes@, self.cost_array@));
            assert forall|j: int|
                1 <= j < self.cost_array@.len() implies match (#[trigger] self.cost_array@[j]).token {
                Some(t) => 0 <= t < vm.n() && 1 <= vm.str_at(t as int).len() <= j,
                None => false,
            } by {
                assert(cell_ok(vm, bytes@, self.cost_array@, j));
            }
            assert(cells_linked(vm, self.cost_array@));
        }
        let stats = self.get_stats(&self.cost_array);
        proof {
            let ll = bytes@.len() as int;
            if ll > 0 {
                assert(cell_ok(vm, bytes@, self.cost_array@, ll));
            }
            assert(stats@.bounded(vm.literal_cost));
            assert(stats@.wf_for(vm.n()));
            lemma_trace_is_opt(vm, bytes@, self.cost_array@, ll);
            assert(stats@ =~= slice_stats(vm, bytes@));
        }
        stats
    }
}


/// Segmentation minima are never negative.
pub proof fn lemma_len_min_ge0(vm: VocabModel, bytes: Seq<u8>, i: int, l: int)
    requires
        vm.wf(),
    ensures
        match len_min_from(vm, bytes, i, l) {
            Some(c) => c >= 0,
            None => true,
        },
    decreases i, i + 1 - l,
{
    if i <= 0 || l > i || l <= 0 {
    } else {
        lemma_len_min_ge0(vm, bytes, i, l + 1);
        let s = bytes.subrange(i - l, i);
        if vm.has_str(s) {
            if i != l {
                lemma_len_min_ge0(vm, bytes, i - l, 1);
            }
        }
    }
}

/// The minimum is defined and no larger than any single candidate: a final
/// token of length `l2` over an optimal head.
pub proof fn lemma_len_min_le(vm: VocabModel, bytes: Seq<u8>, i: int, l: int, l2: int, p: int)
    requires
        1 <= l <= l2 <= i,
        vm.has_str(bytes.subrange(i - l2, i)),
        l2 == i ==> p == 0,
        l2 < i ==> len_min_from(vm, bytes, i - l2, 1) == Some(p),
    ensures
        match len_min_from(vm, bytes, i, l) {
            Some(c) => c <= p + cost_of_str(vm, bytes.subrange(i - l2, i)),
            None => false,
        },
    decreases l2 - l,
{
    if l == l2 {
    } else {
        lemma_len_min_le(vm, bytes, i, l + 1, l2, p);
    }
}

/// Every prefix of any byte string has a segmentation, of cost at most the
/// all-literals one.
pub proof fn lemma_min_cost_some(vm: VocabModel, bytes: Seq<u8>, i: int)
    requires
        vm.wf(),
        0 <= i <= bytes.len(),
    ensures
        match min_cost(vm, bytes, i) {
            Some(c) => 0 <= c <= i * vm.literal_cost,
            None => false,
        },
    decreases i,
{
    if i == 0 {
    } else {
        lemma_min_cost_some(vm, bytes, i - 1);
        let b = bytes[i - 1];
        let s = bytes.subrange(i - 1, i);
        assert(s =~= seq![b]);
        crate::automaton::lemma_literal_lookup(vm, b);
        crate::tokens::lemma_lookup(vm, seq![b]);
        assert(vm.has_str(s));
        let p = if i == 1 {
            0int
        } else {
            min_cost(vm, bytes, i - 1).unwrap()
        };
        lemma_len_min_le(vm, bytes, i, 1, 1, p);
        lemma_len_min_ge0(vm, bytes, i, 1);
        assert(cost_of_str(vm, s) <= vm.literal_cost);
        assert(p <= (i - 1) * vm.literal_cost);
        assert((i - 1) * vm.literal_cost + vm.literal_cost == i * vm.literal_cost)
            by (nonlinear_arith);
    }
}

/// Holding a string is a property of the strings alone.
pub proof fn lemma_has_str_congruent(a: VocabModel, b: VocabModel, s: Seq<u8>)
    requires
        same_strings(a, b),
    ensures
        a.has_str(s) == b.has_str(s),
        a.has_nonliteral(s) == b.has_nonliteral(s),
{
    if a.has_str(s) {
        let w = choose|w: int| 0 <= w < a.n() && a.str_at(w) == s;
        assert(b.str_at(w) == s);
    }
    if b.has_str(s) {
        let w = choose|w: int| 0 <= w < b.n() && b.str_at(w) == s;
        assert(a.str_at(w) == s);
    }
    if a.has_nonliteral(s) {
        let w = choose|w: int| 256 <= w < a.n() && a.str_at(w) == s;
        assert(b.str_at(w) == s);
    }
    if b.has_nonliteral(s) {
        let w = choose|w: int| 256 <= w < b.n() && b.str_at(w) == s;
        assert(a.str_at(w) == s);
    }
}

/// Segmentation minima depend only on the token strings and the literal
/// cost.
pub proof fn lemma_len_min_congruent(
    a: VocabModel,
    b: VocabModel,
    bytes: Seq<u8>,
    i: int,
    l: int,
)
    requires
        same_strings(a, b),
        a.literal_cost == b.literal_cost,
    ensures
        len_min_from(a, bytes, i, l) == len_min_from(b, bytes, i, l),
    decreases i, i + 1 - l,
{
    if i <= 0 || l > i || l <= 0 {
    } else {
        lemma_len_min_congruent(a, b, bytes, i, l + 1);
        let s = bytes.subrange(i - l, i);
        lemma_has_str_congruent(a, b, s);
        if a.has_str(s) {
            if i != l {
                lemma_len_min_congruent(a, b, bytes, i - l, 1);
            }
        }
    }
}

/// `min_cost` depends only on the token strings and the literal cost.
pub proof fn lemma_min_cost_congruent(a: VocabModel, b: VocabModel, bytes: Seq<u8>, i: int)
    requires
        same_strings(a, b),
        a.literal_cost == b.literal_cost,
    ensures
        min_cost(a, bytes, i) == min_cost(b, bytes, i),
{
    lemma_len_min_congruent(a, b, bytes, i, 1);
}


/// Every entry of `seg` is a token index.
pub open spec fn seg_valid(vm: VocabModel, seg: Seq<int>) -> bool {
    forall|k: int| 0 <= k < seg.len() ==> 0 <= #[trigger] seg[k] < vm.n()
}

/// The bytes the token sequence `seg` spells out.
pub open spec fn concat_of(vm: VocabModel, seg: Seq<int>) -> Seq<u8>
    decreases seg.len(),
{
    if seg.len() == 0 {
        Seq::empty()
    } else {
        concat_of(vm, seg.drop_last()) + vm.str_at(seg.last())
    }
}

/// The total cost of emitting the tokens of `seg`.
pub open spec fn seg_cost(vm: VocabModel, seg: Seq<int>) -> int
    decreases seg.len(),
{
    if seg.len() == 0 {
        0
    } else {
        seg_cost(vm, seg.drop_last()) + vm.toks[seg.last()].cost
    }
}

/// `seg` is a segmentation of `bytes`: token indices whose strings
/// concatenate exactly to `bytes`.
pub open spec fn is_seg_of(vm: VocabModel, bytes: Seq<u8>, seg: Seq<int>) -> bool {
    seg_valid(vm, seg) && concat_of(vm, seg) == bytes
}

/// The back-trace of a finished cell array is a segmentation of the scanned
/// prefix: its concatenation recovers the bytes exactly, and its cost is the
/// cell's optimal cost.
pub proof fn lemma_trace_is_seg(vm: VocabModel, bytes: Seq<u8>, cells: Seq<DynState>, pos: int)
    requires
        cells_ok(vm, bytes, cells),
        0 <= pos <= bytes.len(),
    ensures
        is_seg_of(vm, bytes.subrange(0, pos), trace_from(vm, cells, pos)),
        seg_cost(vm, trace_from(vm, cells, pos)) == cells[pos].cost,
    decreases pos,
{
    if pos == 0 {
        assert(trace_from(vm, cells, 0) =~= Seq::<int>::empty());
        assert(concat_of(vm, trace_from(vm, cells, 0)) =~= bytes.subrange(0, 0));
    } else {
        assert(cell_ok(vm, bytes, cells, pos));
        let t = cells[pos].token.unwrap() as int;
        let l = vm.str_at(t).len() as int;
        lemma_trace_is_seg(vm, bytes, cells, pos - l);
        let tr = trace_from(vm, cells, pos);
        let tr0 = trace_from(vm, cells, pos - l);
        assert(tr == tr0.push(t));
        assert(tr.drop_last() =~= tr0);
        assert(tr.last() == t);
        assert(concat_of(vm, tr) == concat_of(vm, tr0) + vm.str_at(t));
        assert(concat_of(vm, tr) =~= bytes.subrange(0, pos));
        if pos - l == 0 {
            assert(cells[0].cost == 0);
        } else {
            assert(cell_ok(vm, bytes, cells, pos - l));
        }
        assert(min_cost(vm, bytes, pos - l) == Some(cells[pos - l].cost as int));
        assert(min_cost(vm, bytes, pos - l) == Some(cells[pos].cost - vm.toks[t].cost));
    }
}

/// Segmentation minima depend only on the bytes before position `i`.
pub proof fn lemma_len_min_prefix(b1: Seq<u8>, b2: Seq<u8>, vm: VocabModel, i: int, l: int)
    requires
        0 <= i <= b1.len(),
        i <= b2.len(),
        b1.subrange(0, i) == b2.subrange(0, i),
    ensures
        len_min_from(vm, b1, i, l) == len_min_from(vm, b2, i, l),
    decreases i, i + 1 - l,
{
    if i <= 0 || l > i || l <= 0 {
    } else {
        lemma_len_min_prefix(b1, b2, vm, i, l + 1);
        assert forall|k: int| 0 <= k < i implies b1[k] == b2[k] by {
            assert(b1.subrange(0, i)[k] == b1[k]);
            assert(b2.subrange(0, i)[k] == b2[k]);
        }
        assert(b1.subrange(i - l, i) =~= b2.subrange(i - l, i));
        if vm.has_str(b1.subrange(i - l, i)) {
            if i != l {
                assert(b1.subrange(0, i - l) =~= b2.subrange(0, i - l));
                lemma_len_min_prefix(b1, b2, vm, i - l, 1);
            }
        }
    }
}

/// The reverse-map cost for a string undercuts every token carrying it.
pub proof fn lemma_cost_of_str_min(vm: VocabModel, t: int)
    requires
        vm.wf(),
        0 <= t < vm.n(),
    ensures
        cost_of_str(vm, vm.str_at(t)) <= vm.toks[t].cost,
        vm.toks[t].cost >= 1,
{
    let s = vm.str_at(t);
    if vm.has_nonliteral(s) {
        if t < 256 {
            assert(vm.toks[t].cost == vm.literal_cost);
        } else {
            assert(vm.toks[t].cost == 1);
        }
    } else {
        assert(t < 256);
    }
}

/// No segmentation beats the computed minimum: the optimum is a lower bound
/// on the cost of every segmentation of `bytes`.
#[verifier::spinoff_prover]
pub proof fn lemma_min_cost_optimal(vm: VocabModel, bytes: Seq<u8>, seg: Seq<int>)
    requires
        vm.wf(),
        is_seg_of(vm, bytes, seg),
    ensures
        match min_cost(vm, bytes, bytes.len() as int) {
            Some(c) => c <= seg_cost(vm, seg),
            None => false,
        },
    decreases seg.len(),
{
    if seg.len() == 0 {
        assert(concat_of(vm, seg) =~= Seq::<u8>::empty());
        assert(bytes.len() == 0);
    } else {
        let t = seg.last();
        let head = seg.drop_last();
        let prefix = concat_of(vm, head);
        let s = vm.str_at(t);
        assert(bytes == prefix + s);
        assert(seg_valid(vm, head));
        assert(s.len() >= 1) by {
            if t < 256 {
            } else {
                assert(vm.toks[t].string.len() >= 1);
            }
        }
        assert(is_seg_of(vm, prefix, head));
        lemma_min_cost_optimal(vm, prefix, head);
        let m = prefix.len() as int;
        let ll = bytes.len() as int;
        assert(prefix.subrange(0, m) =~= bytes.subrange(0, m));
        if m > 0 {
            lemma_len_min_prefix(prefix, bytes, vm, m, 1);
        }
        assert(min_cost(vm, bytes, m) == min_cost(vm, prefix, m));
        let p = min_cost(vm, bytes, m).unwrap();
        assert(bytes.subrange(ll - s.len(), ll) =~= s);
        assert(vm.has_str(bytes.subrange(ll - s.len(), ll)));
        lemma_len_min_le(vm, bytes, ll, 1, s.len() as int, p);
        lemma_cost_of_str_min(vm, t);
        assert(cost_of_str(vm, bytes.subrange(ll - s.len(), ll)) == cost_of_str(vm, s));
    }
}


/// The token lengths reachable from token `t` by following suffix links,
/// including `t`'s own length.
pub open spec fn chain_lengths(vm: VocabModel, t: int) -> Set<int>
    decreases vm.str_at(t).len()
        when vm.wf() && vm.suffixes_ok() && 0 <= t < vm.n()
        via chain_lengths_dec
{
    match vm.toks[t].suffix {
        None => set![vm.str_at(t).len() as int],
        Some(j) => chain_lengths(vm, j as int).insert(vm.str_at(t).len() as int),
    }
}

#[via_fn]
proof fn chain_lengths_dec(vm: VocabModel, t: int) {
    if vm.wf() && vm.suffixes_ok() && 0 <= t < vm.n() {
        match vm.toks[t].suffix {
            None => {},
            Some(j) => {
                assert(vm.suffix_ok_at(t));
                lemma_link_is_scan(vm, vm.str_at(t), 1);
                lemma_scan_char(vm, vm.str_at(t), 1);
            },
        }
    }
}

/// Walking the suffix chain of token `t` reports exactly the lengths of the
/// token strings among the suffixes of `x` no longer than `t`'s own string.
#[verifier::spinoff_prover]
proof fn lemma_chain_lengths_rel(vm: VocabModel, x: Seq<u8>, t: int)
    requires
        vm.wf(),
        vm.suffixes_ok(),
        0 <= t < vm.n(),
        is_suffix_of(vm.str_at(t), x),
        vm.lookup(vm.str_at(t)) == Some(t),
        1 <= vm.str_at(t).len(),
    ensures
        forall|k: int|
            0 <= k < x.len() ==> ((vm.has_str(#[trigger] x.subrange(k, x.len() as int)) && x.len()
                - k <= vm.str_at(t).len()) <==> chain_lengths(vm, t).contains(x.len() - k)),
    decreases vm.str_at(t).len(),
{
    let s = vm.str_at(t);
    lemma_chain_step(vm, x, t);
    assert(vm.suffix_ok_at(t));
    crate::tokens::lemma_lookup(vm, s);
    assert(s =~= x.subrange(x.len() - s.len(), x.len() as int));
    assert(vm.has_str(x.subrange(x.len() - s.len(), x.len() as int)));
    match vm.toks[t].suffix {
        None => {
            assert(chain_lengths(vm, t) == set![s.len() as int]);
            assert forall|k: int|
                0 <= k < x.len() implies ((vm.has_str(#[trigger] x.subrange(k, x.len() as int))
                && x.len() - k <= s.len()) <==> chain_lengths(vm, t).contains(x.len() - k)) by {
                let l = x.len() - k;
                assert(x.subrange(x.len() - l, x.len() as int) == x.subrange(k, x.len() as int));
                if 1 <= l < s.len() {
                    assert(!vm.has_str(x.subrange(x.len() - l, x.len() as int)));
                }
            }
        },
        Some(j) => {
            lemma_link_is_scan(vm, s, 1);
            lemma_scan_char(vm, s, 1);
            crate::automaton::lemma_suffix_trans(vm.str_at(j as int), s, x);
            lemma_chain_lengths_rel(vm, x, j as int);
            let lj = vm.str_at(j as int).len() as int;
            assert(chain_lengths(vm, t) == chain_lengths(vm, j as int).insert(s.len() as int));
            assert(1 <= lj < s.len());
            assert forall|k: int|
                0 <= k < x.len() implies ((vm.has_str(#[trigger] x.subrange(k, x.len() as int))
                && x.len() - k <= s.len()) <==> chain_lengths(vm, t).contains(x.len() - k)) by {
                let l = x.len() - k;
                assert(x.subrange(x.len() - l, x.len() as int) == x.subrange(k, x.len() as int));
                assert((vm.has_str(x.subrange(k, x.len() as int)) && l <= lj) <==> chain_lengths(
                    vm,
                    j as int,
                ).contains(l));
                if vm.has_str(x.subrange(k, x.len() as int)) && l <= s.len() {
                    if l == s.len() as int {
                        assert(chain_lengths(vm, t).contains(l));
                    } else if l > lj {
                        assert(!vm.has_str(x.subrange(x.len() - l, x.len() as int)));
                    }
                }
                if chain_lengths(vm, t).contains(l) {
                    if l != s.len() as int {
                        assert(chain_lengths(vm, j as int).contains(l));
                    }
                }
            }
        },
    }
}

/// The suffix chain at a walked state reports exactly the lengths of the
/// token strings that are suffixes of the state's string.
pub proof fn lemma_suffix_chain_lengths(vm: VocabModel, sigma: Seq<u8>, t0: int)
    requires
        vm.wf(),
        vm.suffixes_ok(),
        vm.longest_tok_suffix(sigma) == Some(t0),
    ensures
        forall|k: int|
            0 <= k < sigma.len() ==> (vm.has_str(#[trigger] sigma.subrange(k, sigma.len() as int))
                <==> chain_lengths(vm, t0).contains(sigma.len() - k)),
{
    lemma_scan_char(vm, sigma, 0);
    lemma_chain_lengths_rel(vm, sigma, t0);
    assert(forall|k2: int|
        0 <= k2 < sigma.len() ==> ((vm.has_str(#[trigger] sigma.subrange(k2, sigma.len() as int))
            && sigma.len() - k2 <= vm.str_at(t0).len()) <==> chain_lengths(vm, t0).contains(
            sigma.len() - k2,
        )));
    let l0 = vm.str_at(t0).len() as int;
    assert forall|k: int|
        0 <= k < sigma.len() implies (vm.has_str(#[trigger] sigma.subrange(k, sigma.len() as int))
        <==> chain_lengths(vm, t0).contains(sigma.len() - k)) by {
        let l = sigma.len() - k;
        assert((vm.has_str(sigma.subrange(k, sigma.len() as int)) && l <= l0) <==> chain_lengths(
            vm,
            t0,
        ).contains(l));
        if vm.has_str(sigma.subrange(k, sigma.len() as int)) && l > l0 {
            assert(sigma.len() - k <= l0);
            assert(false);
        }
        if chain_lengths(vm, t0).contains(l) && !(1 <= l <= l0) {
            assert(chain_lengths(vm, t0).contains(l) ==> (vm.has_str(sigma.subrange(
                k,
                sigma.len() as int,
            )) && l <= l0));
        }
    }
}

/// `Some`-values on the left never exceed `Some`-values on the right, and
/// the left is defined wherever the right is.
pub open spec fn le_opt(a: Option<int>, b: Option<int>) -> bool {
    match b {
        None => true,
        Some(cb) => match a {
            Some(ca) => ca <= cb,
            None => false,
        },
    }
}

/// A catalog offering every string of another at no higher per-string cost
/// segments at least as cheaply.
pub proof fn lemma_len_min_mono(a: VocabModel, b: VocabModel, bytes: Seq<u8>, i: int, l: int)
    requires
        a.literal_cost == b.literal_cost,
        a.literal_cost >= 1,
        forall|s: Seq<u8>| #[trigger] b.has_str(s) ==> a.has_str(s),
        forall|s: Seq<u8>| #[trigger] b.has_nonliteral(s) ==> a.has_nonliteral(s),
    ensures
        le_opt(len_min_from(a, bytes, i, l), len_min_from(b, bytes, i, l)),
    decreases i, i + 1 - l,
{
    if i <= 0 || l > i || l <= 0 {
    } else {
        lemma_len_min_mono(a, b, bytes, i, l + 1);
        let s = bytes.subrange(i - l, i);
        if b.has_str(s) {
            assert(a.has_str(s));
            assert(cost_of_str(a, s) <= cost_of_str(b, s));
            if i != l {
                lemma_len_min_mono(a, b, bytes, i - l, 1);
            }
        }
        if a.has_str(s) {
            if i != l {
                lemma_len_min_mono(a, b, bytes, i - l, 1);
            }
        }
    }
}

/// Adding a token to the catalog never raises the minimum segmentation cost
/// of any byte string.
pub proof fn lemma_add_token_non_regression(
    old: VocabModel,
    new: VocabModel,
    s: Seq<u8>,
    mand: bool,
    bytes: Seq<u8>,
    i: int,
)
    requires
        old.wf(),
        crate::tokens::pushed_token(old, new, s, false, mand, 1),
    ensures
        le_opt(min_cost(new, bytes, i), min_cost(old, bytes, i)),
{
    let m = old.toks.len() as int;
    assert forall|s2: Seq<u8>| #[trigger] old.has_str(s2) implies new.has_str(s2) by {
        let w = choose|w: int| 0 <= w < old.n() && old.str_at(w) == s2;
        assert(new.str_at(w) == s2);
    }
    assert forall|s2: Seq<u8>| #[trigger] old.has_nonliteral(s2) implies new.has_nonliteral(
        s2,
    ) by {
        let w = choose|w: int| 256 <= w < old.n() && old.str_at(w) == s2;
        assert(new.str_at(w) == s2);
    }
    lemma_len_min_mono(new, old, bytes, i, 1);
}

/// Catalogs with the same literal cost and the same non-literal strings
/// produce the same minimum for every byte string: reloading a saved
/// vocabulary under its preset reproduces every segmentation cost.
pub proof fn lemma_min_cost_same_nonlit(a: VocabModel, b: VocabModel, bytes: Seq<u8>, i: int)
    requires
        a.wf(),
        b.wf(),
        a.literal_cost == b.literal_cost,
        forall|s: Seq<u8>| #[trigger] a.has_nonliteral(s) == b.has_nonliteral(s),
    ensures
        min_cost(a, bytes, i) == min_cost(b, bytes, i),
{
    lemma_same_nonlit_len_min(a, b, bytes, i, 1);
}

proof fn lemma_same_nonlit_len_min(a: VocabModel, b: VocabModel, bytes: Seq<u8>, i: int, l: int)
    requires
        a.wf(),
        b.wf(),
        a.literal_cost == b.literal_cost,
        forall|s: Seq<u8>| #[trigger] a.has_nonliteral(s) == b.has_nonliteral(s),
    ensures
        len_min_from(a, bytes, i, l) == len_min_from(b, bytes, i, l),
    decreases i, i + 1 - l,
{
    if i <= 0 || l > i || l <= 0 {
    } else {
        lemma_same_nonlit_len_min(a, b, bytes, i, l + 1);
        let s = bytes.subrange(i - l, i);
        lemma_has_str_shape(a, s);
        lemma_has_str_shape(b, s);
        if a.has_str(s) {
            if i != l {
                lemma_same_nonlit_len_min(a, b, bytes, i - l, 1);
            }
        }
    }
}

/// Under well-formedness, holding a string means it is a single byte or a
/// non-literal string.
pub proof fn lemma_has_str_shape(vm: VocabModel, s: Seq<u8>)
    requires
        vm.wf(),
    ensures
        vm.has_str(s) == (s.len() == 1 || vm.has_nonliteral(s)),
{
    if vm.has_str(s) {
        let w = choose|w: int| 0 <= w < vm.n() && vm.str_at(w) == s;
        if w < 256 {
            assert(s.len() == 1);
        }
    }
    if s.len() == 1 {
        let b = s[0];
        assert(vm.str_at(b as int) =~= s);
    }
    if vm.has_nonliteral(s) {
        let w = choose|w: int| 256 <= w < vm.n() && vm.str_at(w) == s;
        assert(vm.str_at(w) == s);
    }
}

} // verus!
