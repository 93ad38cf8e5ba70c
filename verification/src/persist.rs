//! Turning a catalog into a deterministic token list and back: the core of
//! vocabulary persistence.  Reading and writing the on-disk document is an
//! external concern; the core only produces and consumes plain byte-string
//! lists.

use crate::tokens::{copy_bytes, lemma_pushed_sets, TokenSet, VocabModel};
use vstd::prelude::*;

verus! {

/// Byte-wise lexicographic order.
pub open spec fn lex_le(a: Seq<u8>, b: Seq<u8>) -> bool
    decreases a.len(),
{
    if a.len() == 0 {
        true
    } else if b.len() == 0 {
        false
    } else if a[0] < b[0] {
        true
    } else if a[0] > b[0] {
        false
    } else {
        lex_le(a.drop_first(), b.drop_first())
    }
}

/// Lexicographic order is total.
pub proof fn lemma_lex_total(a: Seq<u8>, b: Seq<u8>)
    ensures
        lex_le(a, b) || lex_le(b, a),
    decreases a.len(),
{
    if a.len() > 0 && b.len() > 0 && a[0] == b[0] {
        lemma_lex_total(a.drop_first(), b.drop_first());
    }
}

/// Lexicographic order is transitive.
pub proof fn lemma_lex_trans(a: Seq<u8>, b: Seq<u8>, c: Seq<u8>)
    requires
        lex_le(a, b),
        lex_le(b, c),
    ensures
        lex_le(a, c),
    decreases a.len(),
{
    if a.len() > 0 && b.len() > 0 && c.len() > 0 && a[0] == b[0] && b[0] == c[0] {
        lemma_lex_trans(a.drop_first(), b.drop_first(), c.drop_first());
    }
}

/// Compares two byte strings lexicographically.
pub fn bytes_lex_le(a: &[u8], b: &[u8]) -> (r: bool)
    ensures
        r == lex_le(a@, b@),
{
    let n = if a.len() < b.len() {
        a.len()
    } else {
        b.len()
    };
    let mut k: usize = 0;
    proof {
        assert(a@.skip(0) =~= a@);
        assert(b@.skip(0) =~= b@);
    }
    while k < n
        invariant
            k <= n,
            n == if a@.len() < b@.len() {
                a@.len()
            } else {
                b@.len()
            },
            forall|j: int| 0 <= j < k ==> a@[j] == b@[j],
            lex_le(a@, b@) == lex_le(a@.skip(k as int), b@.skip(k as int)),
        decreases n - k,
    {
        proof {
            assert(a@.skip(k as int)[0] == a@[k as int]);
            assert(b@.skip(k as int)[0] == b@[k as int]);
        }
        if a[k] < b[k] {
            return true;
        }
        if a[k] > b[k] {
            return false;
        }
        k = k + 1;
        proof {
            assert(a@.skip(k as int - 1).drop_first() =~= a@.skip(k as int));
            assert(b@.skip(k as int - 1).drop_first() =~= b@.skip(k as int));
        }
    }
    proof {
        if a@.len() <= b@.len() {
            assert(a@.skip(k as int).len() == 0);
        } else {
            assert(b@.skip(k as int).len() == 0);
            assert(a@.skip(k as int).len() > 0);
        }
    }
    a.len() <= b.len()
}

/// Inserts `s` into a sorted list of distinct strings, keeping it sorted.
#[verifier::spinoff_prover]
#[verifier::rlimit(100)]
fn insert_lex(out: &mut Vec<Vec<u8>>, s: Vec<u8>)
    requires
        forall|k: int, l: int| 0 <= k < l < old(out)@.len() ==> lex_le(
            (#[trigger] old(out)@[k])@,
            (#[trigger] old(out)@[l])@,
        ),
        forall|k: int, l: int| 0 <= k < l < old(out)@.len() ==> (#[trigger] old(out)@[k])@ != (
        #[trigger] old(out)@[l])@,
        forall|k: int| 0 <= k < old(out)@.len() ==> (#[trigger] old(out)@[k])@ != s@,
        forall|k: int| 0 <= k < old(out)@.len() ==> (#[trigger] old(out)@[k])@.len() >= 1,
        s@.len() >= 1,
    ensures
        final(out)@.len() == old(out)@.len() + 1,
        forall|k: int, l: int| 0 <= k < l < final(out)@.len() ==> lex_le(
            (#[trigger] final(out)@[k])@,
            (#[trigger] final(out)@[l])@,
        ),
        forall|k: int, l: int| 0 <= k < l < final(out)@.len() ==> (#[trigger] final(out)@[k])@
            != (#[trigger] final(out)@[l])@,
        forall|k: int| 0 <= k < final(out)@.len() ==> (#[trigger] final(out)@[k])@.len() >= 1,
        forall|k: int| 0 <= k < final(out)@.len() ==> ((#[trigger] final(out)@[k])@ == s@
            || exists|j: int|
            0 <= j < old(out)@.len() && (#[trigger] old(out)@[j])@ == final(out)@[k]@),
        forall|j: int| 0 <= j < old(out)@.len() ==> exists|k: int|
            0 <= k < final(out)@.len() && (#[trigger] final(out)@[k])@ == (
            #[trigger] old(out)@[j])@,
        exists|k: int| 0 <= k < final(out)@.len() && (#[trigger] final(out)@[k])@ == s@,
{
    let mut p: usize = 0;
    let mut found = false;
    while !found && p < out.len()
        invariant
            p <= out@.len(),
            out@ == old(out)@,
            forall|q: int| 0 <= q < p ==> !lex_le(s@, (#[trigger] out@[q])@),
            found ==> p < out@.len() && lex_le(s@, out@[p as int]@),
        decreases out@.len() - p + (if found {
            0int
        } else {
            1int
        }),
    {
        if bytes_lex_le(s.as_slice(), out[p].as_slice()) {
            found = true;
        } else {
            p = p + 1;
        }
    }
    let ghost pre = out@;
    let ghost sv = s@;
    out.insert(p, s);
    proof {
        assert(out@.len() == pre.len() + 1);
        assert(forall|q: int| 0 <= q < p ==> out@[q] == pre[q]);
        assert(out@[p as int]@ == sv);
        assert(forall|q: int| p < q < out@.len() ==> out@[q] == pre[q - 1]);
        assert forall|k: int, l: int| 0 <= k < l < out@.len() implies lex_le(
            (#[trigger] out@[k])@,
            (#[trigger] out@[l])@,
        ) by {
            if k < p && l == p {
                lemma_lex_total(sv, out@[k]@);
            } else if k == p && l > p {
                if found {
                    assert(lex_le(sv, pre[p as int]@));
                    if l > p + 1 {
                        assert(lex_le(pre[p as int]@, pre[l - 1]@));
                        lemma_lex_trans(sv, pre[p as int]@, pre[l - 1]@);
                    }
                } else {
                    assert(false);
                }
            } else if k < p && l > p {
                assert(lex_le(pre[k]@, pre[l - 1]@));
            } else if k > p || l < p {
                assert(lex_le(pre[if k < p {
                    k
                } else {
                    k - 1
                }]@, pre[if l < p {
                    l
                } else {
                    l - 1
                }]@));
            }
        }
        assert forall|k: int, l: int| 0 <= k < l < out@.len() implies (#[trigger] out@[k])@ != (
        #[trigger] out@[l])@ by {
            if k != p && l != p {
                assert(pre[if k < p {
                    k
                } else {
                    k - 1
                }]@ != pre[if l < p {
                    l
                } else {
                    l - 1
                }]@);
            }
        }
        assert forall|k: int| 0 <= k < out@.len() implies ((#[trigger] out@[k])@ == sv || exists|
            j: int,
        |
            0 <= j < pre.len() && (#[trigger] pre[j])@ == out@[k]@) by {
            if k != p {
                let j = if k < p {
                    k
                } else {
                    k - 1
                };
                assert(pre[j]@ == out@[k]@);
            }
        }
        assert forall|j: int| 0 <= j < pre.len() implies exists|k: int|
            0 <= k < out@.len() && (#[trigger] out@[k])@ == (#[trigger] pre[j])@ by {
            let k = if j < p {
                j
            } else {
                j + 1
            };
            assert(out@[k]@ == pre[j]@);
        }
        assert(out@[p as int]@ == sv);
    }
}

impl TokenSet {
    /// The non-literal token strings, sorted lexicographically: the
    /// deterministic list a saved vocabulary document carries.
    #[verifier::spinoff_prover]
    #[verifier::rlimit(100)]
    pub fn serial_token_list(&self) -> (r: Vec<Vec<u8>>)
        requires
            self@.wf(),
        ensures
            forall|k: int, l: int| 0 <= k < l < r@.len() ==> lex_le(
                (#[trigger] r@[k])@,
                (#[trigger] r@[l])@,
            ),
            forall|k: int, l: int| 0 <= k < l < r@.len() ==> (#[trigger] r@[k])@ != (
            #[trigger] r@[l])@,
            forall|k: int| 0 <= k < r@.len() ==> self@.has_nonliteral((#[trigger] r@[k])@),
            forall|s: Seq<u8>| #[trigger] self@.has_nonliteral(s) ==> exists|k: int|
                0 <= k < r@.len() && (#[trigger] r@[k])@ == s,
            forall|k: int| 0 <= k < r@.len() ==> (#[trigger] r@[k])@.len() >= 1,
    {
        let ghost vm = self@;
        let mut out: Vec<Vec<u8>> = Vec::new();
        let n = self.tokens.len();
        let mut i: usize = 256;
        while i < n
            invariant
                256 <= i <= n,
                n == vm.n(),
                vm == self@,
                vm.wf(),
                forall|k: int, l: int| 0 <= k < l < out@.len() ==> lex_le(
                    (#[trigger] out@[k])@,
                    (#[trigger] out@[l])@,
                ),
                forall|k: int| 0 <= k < out@.len() ==> exists|j: int|
                    256 <= j < i && vm.str_at(j) == (#[trigger] out@[k])@,
                forall|j: int| 256 <= j < i ==> exists|k: int|
                    0 <= k < out@.len() && (#[trigger] out@[k])@ == #[trigger] vm.str_at(j),
                forall|k: int, l: int| 0 <= k < l < out@.len() ==> (#[trigger] out@[k])@ != (
                #[trigger] out@[l])@,
                forall|k: int| 0 <= k < out@.len() ==> (#[trigger] out@[k])@.len() >= 1,
            decreases n - i,
        {
            let s = copy_bytes(self.tokens[i].string.as_slice());
            proof {
                assert(s@ == vm.str_at(i as int));
                assert(vm.toks[i as int].string.len() >= 1);
                // the new string is distinct from everything collected
                assert forall|k: int| 0 <= k < out@.len() implies (#[trigger] out@[k])@ != s@ by {
                    let j = choose|j: int| 256 <= j < i && vm.str_at(j) == out@[k]@;
                    assert(vm.str_at(j) != vm.str_at(i as int));
                }
            }
            let ghost pre = out@;
            insert_lex(&mut out, s);
            proof {
                assert forall|k: int| 0 <= k < out@.len() implies exists|j: int|
                    256 <= j < i + 1 && vm.str_at(j) == (#[trigger] out@[k])@ by {
                    if out@[k]@ == vm.str_at(i as int) {
                        assert(vm.str_at(i as int) == out@[k]@);
                    } else {
                        let j0 = choose|j0: int|
                            0 <= j0 < pre.len() && (#[trigger] pre[j0])@ == out@[k]@;
                        let j = choose|j: int| 256 <= j < i && vm.str_at(j) == (#[trigger] pre[j0])@;
                        assert(vm.str_at(j) == out@[k]@);
                    }
                }
                assert forall|j: int| 256 <= j < i + 1 implies exists|k: int|
                    0 <= k < out@.len() && (#[trigger] out@[k])@ == #[trigger] vm.str_at(j) by {
                    if j == i {
                        let k = choose|k: int| 0 <= k < out@.len() && (#[trigger] out@[k])@ == vm.str_at(
                            i as int,
                        );
                        assert(out@[k]@ == vm.str_at(j));
                    } else {
                        let k0 = choose|k0: int|
                            0 <= k0 < pre.len() && (#[trigger] pre[k0])@ == vm.str_at(j);
                        let k = choose|k: int|
                            0 <= k < out@.len() && (#[trigger] out@[k])@ == (#[trigger] pre[k0])@;
                        assert(out@[k]@ == vm.str_at(j));
                    }
                }
            }
            i = i + 1;
        }
        proof {
            assert forall|s: Seq<u8>| #[trigger] vm.has_nonliteral(s) implies exists|k: int|
                0 <= k < out@.len() && (#[trigger] out@[k])@ == s by {
                let j = choose|j: int| 256 <= j < vm.n() && vm.str_at(j) == s;
                let k = choose|k: int| 0 <= k < out@.len() && (#[trigger] out@[k])@ == vm.str_at(j);
                assert(out@[k]@ == s);
            }
            assert forall|k: int| 0 <= k < out@.len() implies vm.has_nonliteral(
                (#[trigger] out@[k])@,
            ) by {
                let j = choose|j: int| 256 <= j < n && vm.str_at(j) == (#[trigger] out@[k])@;
            }
        }
        out
    }
}

/// The mandatory framing strings of a preset.
pub open spec fn preset_marker(fallback16: bool, s: Seq<u8>) -> bool {
    if fallback16 {
        s.len() == 1 && (s[0] == 0x10 || (0x30 <= s[0] <= 0x39) || (0x61 <= s[0] <= 0x66))
    } else {
        s.len() == 1 && (s[0] == 0x11 || s[0] == 0x12)
    }
}

/// A freshly built preset holds exactly its markers as non-literal (and
/// mandatory) strings.
pub proof fn lemma_preset_sets(vm: VocabModel, fallback16: bool)
    requires
        vm.wf(),
        vm.n() == if fallback16 {
            273int
        } else {
            258int
        },
        fallback16 ==> {
            &&& vm.str_at(256) == seq![0x10u8]
            &&& forall|k: int| 0 <= k < 10 ==> #[trigger] vm.str_at(257 + k) == seq![
                (0x30 + k) as u8,
            ]
            &&& forall|k: int| 0 <= k < 6 ==> #[trigger] vm.str_at(267 + k) == seq![(0x61 + k) as u8]
            &&& forall|i: int| 256 <= i < 273 ==> (#[trigger] vm.toks[i]).is_mandatory
        },
        !fallback16 ==> {
            &&& vm.str_at(256) == seq![0x11u8]
            &&& vm.str_at(257) == seq![0x12u8]
            &&& forall|i: int| 256 <= i < 258 ==> (#[trigger] vm.toks[i]).is_mandatory
        },
    ensures
        forall|s: Seq<u8>| #[trigger] vm.has_nonliteral(s) == preset_marker(fallback16, s),
        forall|s: Seq<u8>| #[trigger] vm.has_mandatory(s) == preset_marker(fallback16, s),
{
    assert forall|s: Seq<u8>| #[trigger] vm.has_nonliteral(s) == preset_marker(
        fallback16,
        s,
    ) by {
        lemma_preset_one(vm, fallback16, s);
    }
    assert forall|s: Seq<u8>| #[trigger] vm.has_mandatory(s) == preset_marker(
        fallback16,
        s,
    ) by {
        lemma_preset_one(vm, fallback16, s);
    }
}

proof fn lemma_preset_one(vm: VocabModel, fallback16: bool, s: Seq<u8>)
    requires
        vm.wf(),
        vm.n() == if fallback16 {
            273int
        } else {
            258int
        },
        fallback16 ==> {
            &&& vm.str_at(256) == seq![0x10u8]
            &&& forall|k: int| 0 <= k < 10 ==> #[trigger] vm.str_at(257 + k) == seq![
                (0x30 + k) as u8,
            ]
            &&& forall|k: int| 0 <= k < 6 ==> #[trigger] vm.str_at(267 + k) == seq![(0x61 + k) as u8]
            &&& forall|i: int| 256 <= i < 273 ==> (#[trigger] vm.toks[i]).is_mandatory
        },
        !fallback16 ==> {
            &&& vm.str_at(256) == seq![0x11u8]
            &&& vm.str_at(257) == seq![0x12u8]
            &&& forall|i: int| 256 <= i < 258 ==> (#[trigger] vm.toks[i]).is_mandatory
        },
    ensures
        vm.has_nonliteral(s) == preset_marker(fallback16, s),
        vm.has_mandatory(s) == preset_marker(fallback16, s),
{
    if vm.has_nonliteral(s) {
        let w = choose|w: int| 256 <= w < vm.n() && vm.str_at(w) == s;
        if fallback16 {
            if w == 256 {
            } else if w < 267 {
                assert(vm.str_at(257 + (w - 257)) == seq![(0x30 + (w - 257)) as u8]);
            } else {
                assert(vm.str_at(267 + (w - 267)) == seq![(0x61 + (w - 267)) as u8]);
            }
        }
        assert(preset_marker(fallback16, s));
        assert(vm.toks[w].is_mandatory);
        assert(vm.has_mandatory(s));
    }
    if preset_marker(fallback16, s) {
        let b = s[0];
        assert(s =~= seq![b]);
        if fallback16 {
            if b == 0x10 {
                assert(vm.str_at(256) == s);
                assert(vm.toks[256].is_mandatory);
            } else if 0x30 <= b <= 0x39 {
                assert(vm.str_at(257 + (b - 0x30)) == seq![(0x30 + (b as int - 0x30)) as u8]);
                assert(vm.str_at(257 + (b - 0x30)) == s);
                assert(vm.toks[257 + (b - 0x30)].is_mandatory);
            } else {
                assert(vm.str_at(267 + (b - 0x61)) == seq![(0x61 + (b as int - 0x61)) as u8]);
                assert(vm.str_at(267 + (b - 0x61)) == s);
                assert(vm.toks[267 + (b - 0x61)].is_mandatory);
            }
        } else {
            if b == 0x11 {
                assert(vm.str_at(256) == s);
                assert(vm.toks[256].is_mandatory);
            } else {
                assert(vm.str_at(257) == s);
                assert(vm.toks[257].is_mandatory);
            }
        }
        assert(vm.has_nonliteral(s));
        assert(vm.has_mandatory(s));
    }
    if vm.has_mandatory(s) {
        assert(vm.has_nonliteral(s));
    }
}

/// Builds a catalog from a persisted vocabulary: the preset selected by
/// `fallback16`, then each listed token string in order.
#[verifier::spinoff_prover]
pub fn load_token_set(fallback16: bool, token_strs: &Vec<Vec<u8>>) -> (r: TokenSet)
    requires
        forall|k: int| 0 <= k < token_strs@.len() ==> (#[trigger] token_strs@[k])@.len() >= 1,
    ensures
        r@.wf(),
        r@.fallback16 == fallback16,
        r@.literal_cost == if fallback16 {
            3int
        } else {
            8int
        },
        forall|s: Seq<u8>| #[trigger] r@.has_mandatory(s) == preset_marker(fallback16, s),
        forall|s: Seq<u8>| #[trigger] r@.has_nonliteral(s) == (preset_marker(fallback16, s)
            || exists|k: int| 0 <= k < token_strs@.len() && (#[trigger] token_strs@[k])@ == s),
{
    let mut token_set = if fallback16 {
        TokenSet::build_with_hex_literals()
    } else {
        TokenSet::build_with_bin_literals()
    };
    proof {
        lemma_preset_sets(token_set@, fallback16);
    }
    let m = token_strs.len();
    let mut k: usize = 0;
    while k < m
        invariant
            k <= m,
            m == token_strs@.len(),
            token_set@.wf(),
            token_set@.fallback16 == fallback16,
            token_set@.literal_cost == if fallback16 {
                3int
            } else {
                8int
            },
            forall|j: int| 0 <= j < m ==> (#[trigger] token_strs@[j])@.len() >= 1,
            forall|s: Seq<u8>| #[trigger] token_set@.has_mandatory(s) == preset_marker(
                fallback16,
                s,
            ),
            forall|s: Seq<u8>| #[trigger] token_set@.has_nonliteral(s) == (preset_marker(
                fallback16,
                s,
            ) || exists|j: int| 0 <= j < k && (#[trigger] token_strs@[j])@ == s),
        decreases m - k,
    {
        let ghost pre = token_set@;
        token_set.add_token(token_strs[k].as_slice());
        proof {
            let s0 = token_strs@[k as int]@;
            if pre.has_nonliteral(s0) {
                assert forall|s: Seq<u8>| #[trigger] token_set@.has_nonliteral(s) == (
                preset_marker(fallback16, s) || exists|j: int|
                    0 <= j < k + 1 && (#[trigger] token_strs@[j])@ == s) by {
                    if exists|j: int| 0 <= j < k + 1 && (#[trigger] token_strs@[j])@ == s {
                        let j = choose|j: int| 0 <= j < k + 1 && (#[trigger] token_strs@[j])@ == s;
                        if j == k {
                            assert(token_set@.has_nonliteral(s0));
                        }
                    }
                }
            } else {
                lemma_pushed_sets(pre, token_set@, s0, false);
                assert forall|s: Seq<u8>| #[trigger] token_set@.has_nonliteral(s) == (
                preset_marker(fallback16, s) || exists|j: int|
                    0 <= j < k + 1 && (#[trigger] token_strs@[j])@ == s) by {
                    assert(token_set@.has_nonliteral(s) == (pre.has_nonliteral(s) || s == s0));
                    if exists|j: int| 0 <= j < k + 1 && (#[trigger] token_strs@[j])@ == s {
                        let j = choose|j: int| 0 <= j < k + 1 && (#[trigger] token_strs@[j])@ == s;
                        if j < k {
                            assert(pre.has_nonliteral(s));
                        }
                    }
                    if pre.has_nonliteral(s) || s == s0 {
                        if s == s0 {
                            assert(token_strs@[k as int]@ == s);
                        }
                    }
                }
                assert forall|s: Seq<u8>| #[trigger] token_set@.has_mandatory(s) == preset_marker(
                    fallback16,
                    s,
                ) by {
                    assert(token_set@.has_mandatory(s) == (pre.has_mandatory(s) || (false && s
                        == s0)));
                }
            }
        }
        k = k + 1;
    }
    token_set
}


/// Reloading a saved vocabulary reproduces every segmentation cost: a
/// catalog whose non-literal strings are the preset markers plus the saved
/// list segments exactly like the catalog the list was saved from, provided
/// the source held its preset's markers.
pub proof fn lemma_round_trip_cost(
    source: VocabModel,
    loaded: VocabModel,
    fallback16: bool,
    bytes: Seq<u8>,
    i: int,
)
    requires
        source.wf(),
        loaded.wf(),
        source.literal_cost == loaded.literal_cost,
        forall|s: Seq<u8>| #[trigger] loaded.has_nonliteral(s) == (preset_marker(fallback16, s)
            || source.has_nonliteral(s)),
        forall|s: Seq<u8>| preset_marker(fallback16, s) ==> #[trigger] source.has_nonliteral(s),
    ensures
        crate::segment::min_cost(loaded, bytes, i) == crate::segment::min_cost(source, bytes, i),
{
    assert forall|s: Seq<u8>| #[trigger] loaded.has_nonliteral(s) == source.has_nonliteral(s) by {
        if preset_marker(fallback16, s) {
            assert(source.has_nonliteral(s));
        }
    }
    crate::segment::lemma_min_cost_same_nonlit(loaded, source, bytes, i);
}

} // verus!
