//! The byte automaton: a deterministic state machine over token prefixes.
//!
//! Each state recognizes the longest suffix of the input read so far that is
//! a prefix of some token, and carries the reverse-map entry of the longest
//! token ending at that state.  Failure links are inlined into the dense
//! 256-entry successor tables.

use crate::tokens::{bytes_eq, copy_bytes, TokenSet, VocabModel};
use vstd::pervasive::VecAdditionalExecFns;
use vstd::prelude::*;

verus! {

/// `p` is a prefix of `s`.
pub open spec fn is_prefix_of(p: Seq<u8>, s: Seq<u8>) -> bool {
    p.len() <= s.len() && p == s.subrange(0, p.len() as int)
}

/// `p` is a suffix of `s`.
pub open spec fn is_suffix_of(p: Seq<u8>, s: Seq<u8>) -> bool {
    p.len() <= s.len() && p == s.subrange(s.len() - p.len(), s.len() as int)
}

impl VocabModel {
    /// `p` is a prefix of some token string.
    pub open spec fn is_tok_prefix(self, p: Seq<u8>) -> bool {
        exists|i: int| 0 <= i < self.n() && is_prefix_of(p, #[trigger] self.str_at(i))
    }

    /// The longest suffix of `x` starting at or after `k` that is a prefix
    /// of some token; the empty string when no later suffix qualifies.
    pub open spec fn drop_to_prefix(self, x: Seq<u8>, k: int) -> Seq<u8>
        decreases x.len() - k,
    {
        if k < 0 || k >= x.len() {
            Seq::empty()
        } else if self.is_tok_prefix(x.subrange(k, x.len() as int)) {
            x.subrange(k, x.len() as int)
        } else {
            self.drop_to_prefix(x, k + 1)
        }
    }

    /// The longest suffix of `x` that is a prefix of some token: the state
    /// the automaton reaches after reading `x` from the start state.
    pub open spec fn walk_target(self, x: Seq<u8>) -> Seq<u8> {
        self.drop_to_prefix(x, 0)
    }

    /// The reverse-map entry of the longest suffix of `s` (at or after
    /// offset `start`) that is a token string.
    pub open spec fn tok_suffix_from(self, s: Seq<u8>, start: int) -> Option<int>
        decreases s.len() - start,
    {
        if start < 0 || start >= s.len() {
            None
        } else if self.lookup(s.subrange(start, s.len() as int)) is Some {
            self.lookup(s.subrange(start, s.len() as int))
        } else {
            self.tok_suffix_from(s, start + 1)
        }
    }

    /// The reverse-map entry of the longest suffix of `s` that is a token
    /// string.
    pub open spec fn longest_tok_suffix(self, s: Seq<u8>) -> Option<int> {
        self.tok_suffix_from(s, 0)
    }
}

/// One automaton state: the byte string it recognizes, the reverse-map entry
/// of the longest token ending here, and the dense successor table.
pub struct SuffixState {
    pub suffix: Vec<u8>,
    pub token_id: usize,
    pub next: Vec<usize>,
}

/// Some state recognizes exactly the string `s`.
pub open spec fn has_state(states: Seq<SuffixState>, s: Seq<u8>) -> bool {
    exists|k: int| 0 <= k < states.len() && (#[trigger] states[k]).suffix@ == s
}

/// No two states recognize the same string.
pub open spec fn states_distinct(states: Seq<SuffixState>) -> bool {
    forall|k: int, l: int|
        0 <= k < l < states.len() ==> (#[trigger] states[k]).suffix@ != (
        #[trigger] states[l]).suffix@
}

/// Every non-empty prefix of every token is recognized by some state.
pub open spec fn states_complete(vm: VocabModel, states: Seq<SuffixState>) -> bool {
    forall|i: int, e: int|
        0 <= i < vm.n() && 1 <= e <= vm.str_at(i).len() ==> has_state(
            states,
            #[trigger] vm.str_at(i).subrange(0, e),
        )
}

/// The string and longest-token entry of state `k` are consistent with the
/// catalog; state 0 is the empty-string start state.
pub open spec fn state_core_ok(vm: VocabModel, states: Seq<SuffixState>, k: int) -> bool {
    let st = states[k];
    &&& st.next@.len() == 256
    &&& (st.suffix@.len() == 0 <==> k == 0)
    &&& vm.is_tok_prefix(st.suffix@)
    &&& (k == 0 ==> st.token_id == 0)
    &&& (k > 0 ==> vm.longest_tok_suffix(st.suffix@) == Some(st.token_id as int))
}

/// The successor of state `k` under byte `b` recognizes the longest suffix
/// of the extended string that is a prefix of some token.
pub open spec fn trans_ok(vm: VocabModel, states: Seq<SuffixState>, k: int, b: int) -> bool {
    let t = (#[trigger] states[k].next@[b]) as int;
    &&& 0 <= t < states.len()
    &&& states[t].suffix@ == vm.walk_target(states[k].suffix@.push(b as u8))
}

/// All successor entries of state `k` are consistent.
pub open spec fn state_trans_ok(vm: VocabModel, states: Seq<SuffixState>, k: int) -> bool {
    forall|b: int| 0 <= b < 256 ==> trans_ok(vm, states, k, b)
}

/// The full automaton invariant.
pub open spec fn automaton_ok(vm: VocabModel, states: Seq<SuffixState>) -> bool {
    &&& states.len() >= 1
    &&& states_distinct(states)
    &&& states_complete(vm, states)
    &&& forall|k: int| 0 <= k < states.len() ==> state_core_ok(vm, states, k)
    &&& forall|k: int| 0 <= k < states.len() ==> state_trans_ok(vm, states, k)
}

/// Finds the state recognizing exactly `s`, if any.
fn find_state(states: &Vec<SuffixState>, s: &[u8]) -> (r: Option<usize>)
    ensures
        match r {
            Some(k) => 0 <= k < states@.len() && states@[k as int].suffix@ == s@,
            None => !has_state(states@, s@),
        },
{
    let mut k: usize = 0;
    while k < states.len()
        invariant
            k <= states@.len(),
            forall|l: int| 0 <= l < k ==> (#[trigger] states@[l]).suffix@ != s@,
        decreases states@.len() - k,
    {
        if bytes_eq(states[k].suffix.as_slice(), s) {
            return Some(k);
        }
        k = k + 1;
    }
    None
}

/// A fresh all-zero successor table.
fn zero_table() -> (r: Vec<usize>)
    ensures
        r@.len() == 256,
        forall|b: int| 0 <= b < 256 ==> r@[b] == 0,
{
    let mut r: Vec<usize> = Vec::new();
    while r.len() < 256
        invariant
            r@.len() <= 256,
            forall|b: int| 0 <= b < r@.len() ==> r@[b] == 0,
        decreases 256 - r@.len(),
    {
        r.push(0);
    }
    r
}

/// The reverse map resolves every single-byte string, to an entry whose cost
/// is at most the literal cost.
pub proof fn lemma_literal_lookup(vm: VocabModel, b: u8)
    requires
        vm.wf(),
    ensures
        match vm.lookup(seq![b]) {
            Some(i) => 0 <= i < vm.n() && vm.str_at(i) == seq![b] && vm.toks[i].cost
                <= vm.literal_cost && vm.toks[i].cost >= 1 && vm.str_at(i).len() == 1,
            None => false,
        },
{
    assert(vm.str_at(b as int) =~= seq![b]);
    assert(vm.has_str(seq![b]));
    crate::tokens::lemma_lookup(vm, seq![b]);
    let i = vm.lookup(seq![b]).unwrap();
    if i >= 256 {
        assert(vm.toks[i].cost == 1);
    } else {
        assert(vm.str_at(i)[0] == i as u8);
        assert(i == b as int);
    }
}

/// Computes the reverse-map entry of the longest suffix of `sl[..end]` that
/// is a token string; such a suffix always exists because the final byte is
/// a literal.
fn scan_token_id(token_set: &TokenSet, sl: &[u8], end: usize) -> (tid: usize)
    requires
        token_set@.wf(),
        1 <= end <= sl@.len(),
    ensures
        token_set@.longest_tok_suffix(sl@.subrange(0, end as int)) == Some(tid as int),
{
    let ghost p = sl@.subrange(0, end as int);
    let mut start: usize = 0;
    while start < end
        invariant
            start < end,
            end <= sl@.len(),
            token_set@.wf(),
            p == sl@.subrange(0, end as int),
            token_set@.longest_tok_suffix(p) == token_set@.tok_suffix_from(p, start as int),
        decreases end - start,
    {
        let sub = &sl[start..end];
        proof {
            assert(sub@ =~= p.subrange(start as int, p.len() as int));
        }
        match token_set.find_token(sub) {
            Some(j) => {
                return j;
            },
            None => {
                proof {
                    if start == end - 1 {
                        assert(sub@ =~= seq![sl@[start as int]]);
                        lemma_literal_lookup(token_set@, sl@[start as int]);
                        assert(false);
                    }
                }
                start = start + 1;
            },
        }
    }
    proof {
        assert(false);
    }
    0
}

/// Finds the state recognizing the longest suffix of `x` that is a prefix
/// of some token, falling back to the empty start state.
#[verifier::spinoff_prover]
fn find_fallback(token_set: &TokenSet, states: &Vec<SuffixState>, x: &[u8]) -> (t: usize)
    requires
        token_set@.wf(),
        states@.len() >= 1,
        states@[0].suffix@.len() == 0,
        states_complete(token_set@, states@),
        forall|k: int| 0 <= k < states@.len() ==> state_core_ok(token_set@, states@, k),
    ensures
        t < states@.len(),
        states@[t as int].suffix@ == token_set@.walk_target(x@),
{
    let ghost vm = token_set@;
    let xlen = x.len();
    let mut start: usize = 0;
    while start < xlen
        invariant
            start <= xlen,
            xlen == x@.len(),
            vm == token_set@,
            vm.wf(),
            states@.len() >= 1,
            states@[0].suffix@.len() == 0,
            states_complete(vm, states@),
            forall|k: int| 0 <= k < states@.len() ==> state_core_ok(vm, states@, k),
            vm.walk_target(x@) == vm.drop_to_prefix(x@, start as int),
        decreases xlen - start,
    {
        let sub = &x[start..xlen];
        proof {
            assert(sub@ =~= x@.subrange(start as int, x@.len() as int));
        }
        match find_state(states, sub) {
            Some(t) => {
                proof {
                    assert(state_core_ok(vm, states@, t as int));
                    assert(vm.is_tok_prefix(sub@));
                }
                return t;
            },
            None => {
                proof {
                    if vm.is_tok_prefix(sub@) {
                        let i = choose|i: int|
                            0 <= i < vm.n() && is_prefix_of(sub@, #[trigger] vm.str_at(i));
                        assert(sub@ == vm.str_at(i).subrange(0, sub@.len() as int));
                        assert(has_state(states@, vm.str_at(i).subrange(0, sub@.len() as int)));
                        assert(false);
                    }
                }
                start = start + 1;
            },
        }
    }
    proof {
        assert(vm.drop_to_prefix(x@, start as int) =~= Seq::<u8>::empty());
    }
    0
}

/// Builds the automaton for a catalog: enumerates one state per distinct
/// non-empty token prefix (plus the empty start state), then fills every
/// successor entry with the longest-suffix fallback.
#[verifier::spinoff_prover]
pub fn build_automaton(token_set: &TokenSet) -> (states: Vec<SuffixState>)
    requires
        token_set@.wf(),
    ensures
        automaton_ok(token_set@, states@),
{
    let ghost vm = token_set@;
    let mut states: Vec<SuffixState> = Vec::new();
    states.push(SuffixState { suffix: Vec::new(), token_id: 0, next: zero_table() });
    proof {
        assert(states@[0].suffix@ =~= Seq::<u8>::empty());
        assert(Seq::<u8>::empty() =~= vm.str_at(0).subrange(0, 0));
        assert(is_prefix_of(Seq::<u8>::empty(), vm.str_at(0)));
        assert(state_core_ok(vm, states@, 0));
    }

    let n = token_set.tokens.len();
    let mut ti: usize = 0;
    while ti < n
        invariant
            ti <= n,
            n == vm.n(),
            vm == token_set@,
            vm.wf(),
            states@.len() >= 1,
            states@[0].suffix@.len() == 0,
            states_distinct(states@),
            forall|k: int| 0 <= k < states@.len() ==> state_core_ok(vm, states@, k),
            forall|i: int, e: int|
                0 <= i < ti && 1 <= e <= vm.str_at(i).len() ==> has_state(
                    states@,
                    #[trigger] vm.str_at(i).subrange(0, e),
                ),
        decreases n - ti,
    {
        let sl = token_set.tokens[ti].string.as_slice();
        let tlen = sl.len();
        let mut endm: usize = 0;
        while endm < tlen
            invariant
                endm <= tlen,
                tlen == sl@.len(),
                sl@ == vm.str_at(ti as int),
                0 <= ti < n,
                n == vm.n(),
                vm == token_set@,
                vm.wf(),
                states@.len() >= 1,
                states@[0].suffix@.len() == 0,
                states_distinct(states@),
                forall|k: int| 0 <= k < states@.len() ==> state_core_ok(vm, states@, k),
                forall|i: int, e: int|
                    0 <= i < ti && 1 <= e <= vm.str_at(i).len() ==> has_state(
                        states@,
                        #[trigger] vm.str_at(i).subrange(0, e),
                    ),
                forall|e: int|
                    1 <= e <= endm ==> has_state(states@, vm.str_at(ti as int).subrange(0, e)),
            decreases tlen - endm,
        {
            let end = endm + 1;
            let pref = &sl[0..end];
            proof {
                assert(pref@ =~= vm.str_at(ti as int).subrange(0, end as int));
            }
            if find_state(&states, pref).is_none() {
                let tid = scan_token_id(token_set, sl, end);
                let ghost pre = states@;
                states.push(
                    SuffixState { suffix: copy_bytes(pref), token_id: tid, next: zero_table() },
                );
                proof {
                    let m = pre.len() as int;
                    assert(states@.len() == m + 1);
                    assert(forall|k: int| 0 <= k < m ==> states@[k] == pre[k]);
                    assert(states@[m].suffix@ == pref@);
                    assert(pref@.len() >= 1);
                    // the fresh state is consistent
                    assert(is_prefix_of(pref@, vm.str_at(ti as int)));
                    assert(vm.is_tok_prefix(pref@));
                    assert(state_core_ok(vm, states@, m));
                    assert forall|k: int| 0 <= k < states@.len() implies state_core_ok(
                        vm,
                        states@,
                        k,
                    ) by {
                        if k < m {
                            assert(state_core_ok(vm, pre, k));
                            assert(states@[k] == pre[k]);
                        }
                    }
                    assert forall|k: int, l: int|
                        0 <= k < l < states@.len() implies (#[trigger] states@[k]).suffix@ != (
                        #[trigger] states@[l]).suffix@ by {
                        if l < m {
                            assert(pre[k].suffix@ != pre[l].suffix@);
                        } else {
                            assert(!has_state(pre, pref@));
                        }
                    }
                    assert forall|i: int, e: int|
                        0 <= i < ti && 1 <= e <= vm.str_at(i).len() implies has_state(
                        states@,
                        #[trigger] vm.str_at(i).subrange(0, e),
                    ) by {
                        assert(has_state(pre, vm.str_at(i).subrange(0, e)));
                        let w = choose|k: int|
                            0 <= k < pre.len() && (#[trigger] pre[k]).suffix@ == vm.str_at(
                                i,
                            ).subrange(0, e);
                        assert(states@[w].suffix@ == vm.str_at(i).subrange(0, e));
                    }
                    assert forall|e: int|
                        1 <= e <= endm + 1 implies has_state(
                        states@,
                        vm.str_at(ti as int).subrange(0, e),
                    ) by {
                        if e <= endm {
                            assert(has_state(pre, vm.str_at(ti as int).subrange(0, e)));
                            let w = choose|k: int|
                                0 <= k < pre.len() && (#[trigger] pre[k]).suffix@ == vm.str_at(
                                    ti as int,
                                ).subrange(0, e);
                            assert(states@[w].suffix@ == vm.str_at(ti as int).subrange(0, e));
                        } else {
                            assert(states@[m].suffix@ == vm.str_at(ti as int).subrange(0, e));
                        }
                    }
                }
            }
            endm = endm + 1;
        }
        ti = ti + 1;
    }

    // fill the successor tables
    let n_states = states.len();
    let mut si: usize = 0;
    while si < n_states
        invariant
            si <= n_states,
            n_states == states@.len(),
            vm == token_set@,
            vm.wf(),
            states@.len() >= 1,
            states@[0].suffix@.len() == 0,
            states_distinct(states@),
            states_complete(vm, states@),
            forall|k: int| 0 <= k < states@.len() ==> state_core_ok(vm, states@, k),
            forall|k: int| 0 <= k < si ==> state_trans_ok(vm, states@, k),
        decreases n_states - si,
    {
        let mut x = copy_bytes(states[si].suffix.as_slice());
        let slen = x.len();
        x.push(0u8);
        let mut nexts: Vec<usize> = Vec::new();
        let mut b: usize = 0;
        while b < 256
            invariant
                b <= 256,
                nexts@.len() == b,
                si < n_states,
                n_states == states@.len(),
                x@.len() == slen + 1,
                slen == states@[si as int].suffix@.len(),
                x@.subrange(0, slen as int) == states@[si as int].suffix@,
                vm == token_set@,
                vm.wf(),
                states@.len() >= 1,
                states@[0].suffix@.len() == 0,
                states_distinct(states@),
                states_complete(vm, states@),
                forall|k: int| 0 <= k < states@.len() ==> state_core_ok(vm, states@, k),
                forall|k: int| 0 <= k < si ==> state_trans_ok(vm, states@, k),
                forall|bb: int| 0 <= bb < b ==> {
                    let t = (#[trigger] nexts@[bb]) as int;
                    &&& 0 <= t < states@.len()
                    &&& states@[t].suffix@ == vm.walk_target(
                        states@[si as int].suffix@.push(bb as u8),
                    )
                },
            decreases 256 - b,
        {
            x.set(slen, b as u8);
            proof {
                assert(x@ =~= states@[si as int].suffix@.push(b as u8));
            }
            let target = find_fallback(token_set, &states, x.as_slice());
            nexts.push(target);
            b = b + 1;
        }
        let suf_copy = copy_bytes(states[si].suffix.as_slice());
        let tid = states[si].token_id;
        let ghost pre = states@;
        states.set(si, SuffixState { suffix: suf_copy, token_id: tid, next: nexts });
        proof {
            assert(forall|k: int| 0 <= k < n_states && k != si ==> states@[k] == pre[k]);
            assert(states@[si as int].suffix@ == pre[si as int].suffix@);
            assert(states@[si as int].token_id == pre[si as int].token_id);
            assert(states@[si as int].next@.len() == 256);
            assert forall|k: int, l: int|
                0 <= k < l < states@.len() implies (#[trigger] states@[k]).suffix@ != (
                #[trigger] states@[l]).suffix@ by {
                assert(pre[k].suffix@ != pre[l].suffix@);
                assert(states@[k].suffix@ == pre[k].suffix@);
                assert(states@[l].suffix@ == pre[l].suffix@);
            }
            assert forall|i: int, e: int|
                0 <= i < vm.n() && 1 <= e <= vm.str_at(i).len() implies has_state(
                states@,
                #[trigger] vm.str_at(i).subrange(0, e),
            ) by {
                assert(has_state(pre, vm.str_at(i).subrange(0, e)));
                let w = choose|k: int|
                    0 <= k < pre.len() && (#[trigger] pre[k]).suffix@ == vm.str_at(i).subrange(
                        0,
                        e,
                    );
                assert(states@[w].suffix@ == vm.str_at(i).subrange(0, e));
            }
            assert forall|k: int| 0 <= k < states@.len() implies state_core_ok(
                vm,
                states@,
                k,
            ) by {
                assert(state_core_ok(vm, pre, k));
                assert(states@[k].suffix@ == pre[k].suffix@);
                assert(states@[k].token_id == pre[k].token_id);
                assert(states@[k].next@.len() == 256);
            }
            assert forall|k: int| 0 <= k < si + 1 implies state_trans_ok(vm, states@, k) by {
                if k < si {
                    assert(state_trans_ok(vm, pre, k));
                    assert forall|bb: int| 0 <= bb < 256 implies trans_ok(vm, states@, k, bb) by {
                        assert(trans_ok(vm, pre, k, bb));
                        let t = pre[k].next@[bb] as int;
                        assert(states@[k].next@[bb] == pre[k].next@[bb]);
                        assert(states@[t].suffix@ == pre[t].suffix@);
                    }
                } else {
                    assert forall|bb: int| 0 <= bb < 256 implies trans_ok(vm, states@, k, bb) by {
                        let t = nexts@[bb] as int;
                        assert(0 <= t < pre.len());
                        assert(states@[t].suffix@ == pre[t].suffix@);
                        assert(states@[k].suffix@ == pre[si as int].suffix@);
                    }
                }
            }
        }
        si = si + 1;
    }

    states
}


/// Suffix-of is transitive.
pub proof fn lemma_suffix_trans(a: Seq<u8>, b: Seq<u8>, c: Seq<u8>)
    requires
        is_suffix_of(a, b),
        is_suffix_of(b, c),
    ensures
        is_suffix_of(a, c),
{
    assert(a =~= c.subrange(c.len() - a.len(), c.len() as int));
}

/// Appending the same byte preserves the suffix relation.
pub proof fn lemma_suffix_push(a: Seq<u8>, b: Seq<u8>, x: u8)
    requires
        is_suffix_of(a, b),
    ensures
        is_suffix_of(a.push(x), b.push(x)),
{
    assert(a.push(x) =~= b.push(x).subrange(
        b.push(x).len() - a.push(x).len(),
        b.push(x).len() as int,
    ));
}

/// Of two suffixes of one string, the shorter is a suffix of the longer.
pub proof fn lemma_suffix_of_suffix(a: Seq<u8>, b: Seq<u8>, c: Seq<u8>)
    requires
        is_suffix_of(a, c),
        is_suffix_of(b, c),
        a.len() <= b.len(),
    ensures
        is_suffix_of(a, b),
{
    assert(a =~= b.subrange(b.len() - a.len(), b.len() as int));
}

/// Two suffixes of one string with equal lengths are equal.
pub proof fn lemma_suffix_same_len(a: Seq<u8>, b: Seq<u8>, c: Seq<u8>)
    requires
        is_suffix_of(a, c),
        is_suffix_of(b, c),
        a.len() == b.len(),
    ensures
        a == b,
{
    assert(a =~= b);
}

/// What `drop_to_prefix` returns: the longest suffix of `x` at offset `k` or
/// later that is a prefix of some token, or the empty string.
pub proof fn lemma_walk_char(vm: VocabModel, x: Seq<u8>, k: int)
    requires
        0 <= k <= x.len(),
    ensures
        ({
            let r = vm.drop_to_prefix(x, k);
            &&& is_suffix_of(r, x)
            &&& (r.len() > 0 ==> vm.is_tok_prefix(r))
            &&& forall|k2: int|
                k <= k2 < x.len() && vm.is_tok_prefix(#[trigger] x.subrange(k2, x.len() as int))
                    ==> x.len() - k2 <= r.len()
        }),
    decreases x.len() - k,
{
    let r = vm.drop_to_prefix(x, k);
    if k >= x.len() {
        assert(r =~= x.subrange(x.len() as int, x.len() as int));
    } else if vm.is_tok_prefix(x.subrange(k, x.len() as int)) {
        assert(r == x.subrange(k, x.len() as int));
        assert(is_suffix_of(r, x));
    } else {
        lemma_walk_char(vm, x, k + 1);
    }
}

/// Walking one byte from the walked state lands where walking the whole
/// extended input lands: failure transitions are sound.
#[verifier::spinoff_prover]
pub proof fn lemma_walk_extend(vm: VocabModel, x: Seq<u8>, b: u8)
    ensures
        vm.walk_target(x.push(b)) == vm.walk_target(vm.walk_target(x).push(b)),
{
    let sigma = vm.walk_target(x);
    let r = vm.walk_target(x.push(b));
    let r2 = vm.walk_target(sigma.push(b));
    let xb = x.push(b);
    lemma_walk_char(vm, x, 0);
    lemma_walk_char(vm, xb, 0);
    lemma_walk_char(vm, sigma.push(b), 0);

    // r2 is a suffix of x.push(b)
    lemma_suffix_push(sigma, x, b);
    lemma_suffix_trans(r2, sigma.push(b), xb);

    // r2.len() <= r.len()
    if r2.len() > 0 {
        let k2 = xb.len() - r2.len();
        assert(r2 =~= xb.subrange(k2, xb.len() as int));
        assert(vm.is_tok_prefix(xb.subrange(k2, xb.len() as int)));
        assert(xb.len() - k2 <= r.len());
    }

    // r.len() <= r2.len()
    if r.len() > 0 {
        let k = xb.len() - r.len();
        assert(r =~= xb.subrange(k, xb.len() as int));
        if r.len() == xb.len() {
            // r is all of x.push(b); then sigma == x and r2 covers it
            assert(k == 0);
        }
        assert(k <= x.len());
        let sp = x.subrange(k, x.len() as int);
        assert(r =~= sp.push(b));
        // sp is a token prefix because r is
        let i = choose|i: int| 0 <= i < vm.n() && is_prefix_of(r, #[trigger] vm.str_at(i));
        assert(sp =~= vm.str_at(i).subrange(0, sp.len() as int));
        assert(is_prefix_of(sp, vm.str_at(i)));
        assert(vm.is_tok_prefix(x.subrange(k, x.len() as int)));
        // so sp is no longer than sigma, hence a suffix of it
        assert(x.len() - k <= sigma.len());
        assert(is_suffix_of(sp, x));
        lemma_suffix_of_suffix(sp, sigma, x);
        lemma_suffix_push(sp, sigma, b);
        // r is then a tok-prefix suffix of sigma.push(b)
        let kk = sigma.push(b).len() - r.len();
        assert(r =~= sigma.push(b).subrange(kk, sigma.push(b).len() as int));
        assert(vm.is_tok_prefix(sigma.push(b).subrange(kk, sigma.push(b).len() as int)));
        assert(sigma.push(b).len() - kk <= r2.len());
    }

    lemma_suffix_trans(r2, sigma.push(b), xb);
    lemma_suffix_same_len(r, r2, xb);
}

/// After at least one byte, the walked state is never the start state: the
/// final byte alone is a literal prefix.
pub proof fn lemma_walk_nonempty(vm: VocabModel, x: Seq<u8>, b: u8)
    requires
        vm.wf(),
    ensures
        vm.walk_target(x.push(b)).len() >= 1,
{
    let xb = x.push(b);
    lemma_walk_char(vm, xb, 0);
    let k2 = xb.len() - 1;
    assert(xb.subrange(k2, xb.len() as int) =~= seq![b]);
    assert(vm.str_at(b as int) =~= seq![b]);
    assert(seq![b] =~= vm.str_at(b as int).subrange(0, 1));
    assert(is_prefix_of(xb.subrange(k2, xb.len() as int), vm.str_at(b as int)));
    assert(vm.is_tok_prefix(xb.subrange(k2, xb.len() as int)));
}

/// What `tok_suffix_from` returns: the reverse-map entry of the longest
/// suffix of `s` (at offset `start` or later) that is a token string.
pub proof fn lemma_scan_char(vm: VocabModel, s: Seq<u8>, start: int)
    requires
        0 <= start,
    ensures
        match vm.tok_suffix_from(s, start) {
            Some(j) => {
                &&& 0 <= j < vm.n()
                &&& is_suffix_of(vm.str_at(j), s)
                &&& vm.lookup(vm.str_at(j)) == Some(j)
                &&& 1 <= vm.str_at(j).len() <= s.len() - start
                &&& forall|k2: int|
                    start <= k2 < s.len() && vm.has_str(
                        #[trigger] s.subrange(k2, s.len() as int),
                    ) ==> s.len() - k2 <= vm.str_at(j).len()
            },
            None => forall|k2: int|
                start <= k2 < s.len() ==> !vm.has_str(#[trigger] s.subrange(k2, s.len() as int)),
        },
    decreases s.len() - start,
{
    if start >= s.len() {
    } else {
        let sub = s.subrange(start, s.len() as int);
        crate::tokens::lemma_lookup(vm, sub);
        if vm.lookup(sub) is Some {
            let j = vm.lookup(sub).unwrap();
            assert(vm.str_at(j) == sub);
            assert(is_suffix_of(vm.str_at(j), s));
        } else {
            lemma_scan_char(vm, s, start + 1);
        }
    }
}


/// The state index the automaton reaches from the start state after feeding
/// the bytes of `x` through the successor tables.
pub open spec fn run_state(states: Seq<SuffixState>, x: Seq<u8>) -> int
    decreases x.len(),
{
    if x.len() == 0 {
        0
    } else {
        let p = run_state(states, x.drop_last());
        if 0 <= p < states.len() && states[p].next@.len() == 256 {
            states[p].next@[x.last() as int] as int
        } else {
            0
        }
    }
}

/// Walking any byte string through a well-formed automaton lands on the
/// state recognizing the longest suffix of the input that is a prefix of
/// some token.
pub proof fn lemma_automaton_tracks(vm: VocabModel, states: Seq<SuffixState>, x: Seq<u8>)
    requires
        automaton_ok(vm, states),
    ensures
        0 <= run_state(states, x) < states.len(),
        states[run_state(states, x)].suffix@ == vm.walk_target(x),
    decreases x.len(),
{
    if x.len() == 0 {
        assert(state_core_ok(vm, states, 0));
        assert(vm.walk_target(x) =~= Seq::<u8>::empty());
        assert(states[0].suffix@ =~= Seq::<u8>::empty());
    } else {
        let y = x.drop_last();
        let b = x.last();
        lemma_automaton_tracks(vm, states, y);
        let p = run_state(states, y);
        assert(state_core_ok(vm, states, p));
        assert(state_trans_ok(vm, states, p));
        assert(trans_ok(vm, states, p, b as int));
        lemma_walk_extend(vm, y, b);
        assert(x =~= y.push(b));
    }
}

} // verus!
