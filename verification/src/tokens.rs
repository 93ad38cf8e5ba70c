//! The vocabulary model: tokens, literals, mandatory tokens, suffix links.

use vstd::pervasive::VecAdditionalExecFns;
use vstd::prelude::*;

verus! {

/// Errors reported by vocabulary operations.
#[derive(Clone, Copy, PartialEq, Eq, Structural, Debug)]
pub enum VocabError {
    /// A non-literal token with the same string already exists.
    DuplicateNonLiteral,
    /// The token is a literal or mandatory and may not be removed.
    Unremovable,
    /// No token with the given string exists.
    NotFound,
}

/// A contiguous non-empty byte string with its segmentation metadata.
#[derive(Debug)]
pub struct Token {
    pub string: Vec<u8>,
    pub is_literal: bool,
    pub is_mandatory: bool,
    /// Index of the longest other token whose string is a proper suffix of
    /// this one; kept current by `TokenSet::generate_suffixes`.
    pub suffix: Option<usize>,
    pub cost: usize,
}

/// The mathematical content of one token.
#[verifier::ext_equal]
pub struct TokModel {
    pub string: Seq<u8>,
    pub is_literal: bool,
    pub is_mandatory: bool,
    pub suffix: Option<int>,
    pub cost: int,
}

impl View for Token {
    type V = TokModel;

    open spec fn view(&self) -> TokModel {
        TokModel {
            string: self.string@,
            is_literal: self.is_literal,
            is_mandatory: self.is_mandatory,
            suffix: match self.suffix {
                Some(j) => Some(j as int),
                None => None,
            },
            cost: self.cost as int,
        }
    }
}

impl Token {
    fn new(string: &[u8], is_literal: bool, is_mandatory: bool, cost: usize) -> (t: Token)
        ensures
            t@ == (TokModel {
                string: string@,
                is_literal,
                is_mandatory,
                suffix: None::<int>,
                cost: cost as int,
            }),
    {
        let t = Token { string: copy_bytes(string), is_literal, is_mandatory, suffix: None, cost };
        proof {
            assert(t@ =~= TokModel {
                string: string@,
                is_literal,
                is_mandatory,
                suffix: None::<int>,
                cost: cost as int,
            });
        }
        t
    }
}

/// Copies a byte slice into a fresh vector.
pub fn copy_bytes(src: &[u8]) -> (r: Vec<u8>)
    ensures
        r@ == src@,
{
    let mut r: Vec<u8> = Vec::new();
    let mut i: usize = 0;
    while i < src.len()
        invariant
            i <= src@.len(),
            r@ == src@.subrange(0, i as int),
        decreases src@.len() - i,
    {
        r.push(src[i]);
        i = i + 1;
        proof {
            assert(r@ =~= src@.subrange(0, i as int));
        }
    }
    proof {
        assert(r@ =~= src@);
    }
    r
}

/// Compares two byte slices for equality.
pub fn bytes_eq(a: &[u8], b: &[u8]) -> (r: bool)
    ensures
        r == (a@ == b@),
{
    if a.len() != b.len() {
        return false;
    }
    let mut i: usize = 0;
    while i < a.len()
        invariant
            i <= a@.len(),
            a@.len() == b@.len(),
            forall|k: int| 0 <= k < i ==> a@[k] == b@[k],
        decreases a@.len() - i,
    {
        if a[i] != b[i] {
            return false;
        }
        i = i + 1;
    }
    proof {
        assert(a@ =~= b@);
    }
    true
}

/// An ordered catalog of tokens.  The first 256 entries are the single-byte
/// literals in byte-value order; entries past 256 are non-literal tokens.
pub struct TokenSet {
    pub tokens: Vec<Token>,
    pub literal_cost: usize,
    pub fallback16: bool,
}

/// The mathematical content of a token catalog.
#[verifier::ext_equal]
pub struct VocabModel {
    pub toks: Seq<TokModel>,
    pub literal_cost: int,
    pub fallback16: bool,
}

impl View for TokenSet {
    type V = VocabModel;

    open spec fn view(&self) -> VocabModel {
        VocabModel {
            toks: Seq::new(self.tokens@.len(), |i: int| self.tokens@[i]@),
            literal_cost: self.literal_cost as int,
            fallback16: self.fallback16,
        }
    }
}

impl VocabModel {
    /// Number of tokens in the catalog.
    pub open spec fn n(self) -> int {
        self.toks.len() as int
    }

    /// The byte string of the token at index `i`.
    pub open spec fn str_at(self, i: int) -> Seq<u8> {
        self.toks[i].string
    }

    /// The index the reverse string map holds for `s` after inserting the
    /// tokens below `n` in index order: the largest index below `n` whose
    /// token has string `s`.
    pub open spec fn lookup_below(self, s: Seq<u8>, n: int) -> Option<int>
        decreases n,
    {
        if n <= 0 {
            None
        } else if self.str_at(n - 1) == s {
            Some(n - 1)
        } else {
            self.lookup_below(s, n - 1)
        }
    }

    /// The index the reverse string map holds for `s`.
    pub open spec fn lookup(self, s: Seq<u8>) -> Option<int> {
        self.lookup_below(s, self.n())
    }

    /// Some token in the catalog has string `s`.
    pub open spec fn has_str(self, s: Seq<u8>) -> bool {
        exists|i: int| 0 <= i < self.n() && self.str_at(i) == s
    }

    /// Some non-literal token has string `s`.
    pub open spec fn has_nonliteral(self, s: Seq<u8>) -> bool {
        exists|i: int| 256 <= i < self.n() && self.str_at(i) == s
    }

    /// Some mandatory token has string `s`.
    pub open spec fn has_mandatory(self, s: Seq<u8>) -> bool {
        exists|i: int| 256 <= i < self.n() && self.str_at(i) == s && self.toks[i].is_mandatory
    }

    /// The first 256 tokens are exactly the single-byte literals, indexed by
    /// their byte value, each costing `literal_cost`.
    pub open spec fn literal_block_ok(self) -> bool {
        forall|i: int| 0 <= i < 256 ==> {
            let t = #[trigger] self.toks[i];
            &&& t.string.len() == 1
            &&& t.string[0] == i as u8
            &&& t.is_literal
            &&& !t.is_mandatory
            &&& t.cost == self.literal_cost
            &&& t.suffix is None
        }
    }

    /// Tokens past the literal block are non-empty non-literals of cost 1.
    pub open spec fn nonliteral_block_ok(self) -> bool {
        forall|i: int| 256 <= i < self.n() ==> {
            let t = #[trigger] self.toks[i];
            &&& !t.is_literal
            &&& t.cost == 1
            &&& t.string.len() >= 1
        }
    }

    /// Non-literal strings are pairwise distinct.  (A non-literal may share
    /// its string with a literal; the reverse map then names the non-literal.)
    pub open spec fn nonliterals_unique(self) -> bool {
        forall|i: int, j: int|
            256 <= i < j < self.n() ==> #[trigger] self.str_at(i) != #[trigger] self.str_at(j)
    }

    /// Structural well-formedness of the catalog.
    pub open spec fn wf(self) -> bool {
        &&& self.n() >= 256
        &&& self.literal_cost >= 1
        &&& self.literal_block_ok()
        &&& self.nonliteral_block_ok()
        &&& self.nonliterals_unique()
    }

    /// The suffix-link target for a token string `s`, scanning proper-suffix
    /// start offsets upward from `start`: the reverse-map entry of the
    /// longest proper suffix of `s` that is a token string.
    pub open spec fn suffix_link_from(self, s: Seq<u8>, start: int) -> Option<int>
        decreases s.len() - start,
    {
        if start < 1 || start >= s.len() {
            None
        } else if self.lookup(s.subrange(start, s.len() as int)) is Some {
            self.lookup(s.subrange(start, s.len() as int))
        } else {
            self.suffix_link_from(s, start + 1)
        }
    }

    /// The suffix-link target for a token string `s`.
    pub open spec fn suffix_link_of(self, s: Seq<u8>) -> Option<int> {
        self.suffix_link_from(s, 1)
    }

    /// The `suffix` field of token `i` matches the current catalog.
    pub open spec fn suffix_ok_at(self, i: int) -> bool {
        self.toks[i].suffix == self.suffix_link_of(self.str_at(i))
    }

    /// All suffix links match the current catalog.
    pub open spec fn suffixes_ok(self) -> bool {
        forall|i: int| 0 <= i < self.n() ==> #[trigger] self.suffix_ok_at(i)
    }
}

/// `lookup_below` returns an index below `n` holding `s`, above every other
/// such index; it returns `None` exactly when no index below `n` holds `s`.
pub proof fn lemma_lookup_below(vm: VocabModel, s: Seq<u8>, n: int)
    requires
        0 <= n <= vm.n(),
    ensures
        match vm.lookup_below(s, n) {
            Some(i) => 0 <= i < n && vm.str_at(i) == s && forall|j: int|
                i < j < n ==> vm.str_at(j) != s,
            None => forall|j: int| 0 <= j < n ==> vm.str_at(j) != s,
        },
    decreases n,
{
    if n > 0 {
        lemma_lookup_below(vm, s, n - 1);
    }
}

/// `lookup` finds the largest index holding `s`, or `None` if `s` is absent.
pub proof fn lemma_lookup(vm: VocabModel, s: Seq<u8>)
    ensures
        match vm.lookup(s) {
            Some(i) => 0 <= i < vm.n() && vm.str_at(i) == s && forall|j: int|
                i < j < vm.n() ==> vm.str_at(j) != s,
            None => !vm.has_str(s),
        },
        vm.lookup(s) is Some <==> vm.has_str(s),
{
    lemma_lookup_below(vm, s, vm.n());
}

/// `new` extends `old` with one token of the given shape at the end.
pub open spec fn pushed_token(
    old: VocabModel,
    new: VocabModel,
    s: Seq<u8>,
    is_literal: bool,
    is_mandatory: bool,
    cost: int,
) -> bool {
    &&& new.toks.len() == old.toks.len() + 1
    &&& forall|i: int| 0 <= i < old.toks.len() ==> new.toks[i] == old.toks[i]
    &&& new.toks.last() == (TokModel {
        string: s,
        is_literal,
        is_mandatory,
        suffix: None::<int>,
        cost,
    })
    &&& new.literal_cost == old.literal_cost
    &&& new.fallback16 == old.fallback16
}

impl TokenSet {
    /// Number of tokens in the catalog.
    pub fn ntokens(&self) -> (r: usize)
        ensures
            r == self@.n(),
    {
        self.tokens.len()
    }

    /// Looks `s` up in the catalog as the reverse string map would: the
    /// largest index whose token string equals `s`.
    pub fn find_token(&self, s: &[u8]) -> (r: Option<usize>)
        ensures
            match r {
                Some(i) => self@.lookup(s@) == Some(i as int),
                None => self@.lookup(s@) is None,
            },
    {
        let mut i: usize = self.tokens.len();
        while i > 0
            invariant
                i <= self@.n(),
                self@.lookup(s@) == self@.lookup_below(s@, i as int),
            decreases i,
        {
            i = i - 1;
            if bytes_eq(self.tokens[i].string.as_slice(), s) {
                return Some(i);
            }
        }
        None
    }

    /// Appends the literal token for byte `value`.  Used only while the
    /// literal block is being built.
    fn add_literal(&mut self, value: u8)
        ensures
            pushed_token(old(self)@, final(self)@, seq![value], true, false, old(self)@.literal_cost),
    {
        let cost = self.literal_cost;
        let arr = [value];
        let token = Token::new(arr.as_slice(), true, false, cost);
        self.tokens.push(token);
        proof {
            assert(arr@ =~= seq![value]);
        }
    }

    /// Appends a non-literal mandatory token with string `string`.
    /// Fails with `DuplicateNonLiteral` when a non-literal token with the
    /// same string already exists.
    pub fn add_mandatory_token(&mut self, string: &[u8]) -> (r: Result<(), VocabError>)
        requires
            old(self)@.wf(),
            string@.len() >= 1,
        ensures
            final(self)@.wf(),
            match r {
                Ok(()) => !old(self)@.has_nonliteral(string@) && pushed_token(
                    old(self)@,
                    final(self)@,
                    string@,
                    false,
                    true,
                    1,
                ),
                Err(e) => e == VocabError::DuplicateNonLiteral && old(self)@.has_nonliteral(
                    string@,
                ) && *final(self) == *old(self),
            },
    {
        proof {
            lemma_lookup(self@, string@);
        }
        if let Some(existing) = self.find_token(string) {
            if !self.tokens[existing].is_literal {
                return Err(VocabError::DuplicateNonLiteral);
            }
        }
        let token = Token::new(string, false, true, 1);
        self.tokens.push(token);
        proof {
            lemma_wf_after_push(old(self)@, self@, string@);
        }
        Ok(())
    }

    /// Appends a non-literal optional token with string `string`.  When a
    /// non-literal token with the same string already exists the call is a
    /// no-op; a literal with the same string does not block the addition.
    pub fn add_token(&mut self, string: &[u8])
        requires
            old(self)@.wf(),
            string@.len() >= 1,
        ensures
            final(self)@.wf(),
            old(self)@.has_nonliteral(string@) ==> *final(self) == *old(self),
            !old(self)@.has_nonliteral(string@) ==> pushed_token(
                old(self)@,
                final(self)@,
                string@,
                false,
                false,
                1,
            ),
    {
        proof {
            lemma_lookup(self@, string@);
        }
        if let Some(existing) = self.find_token(string) {
            if !self.tokens[existing].is_literal {
                return ;
            }
        }
        let token = Token::new(string, false, false, 1);
        self.tokens.push(token);
        proof {
            lemma_wf_after_push(old(self)@, self@, string@);
        }
    }

    /// Removes the non-literal, non-mandatory token with string `token_str`.
    /// Fails with `NotFound` when no token has that string, and with
    /// `Unremovable` when the reverse map names a literal or mandatory token.
    pub fn remove_token(&mut self, token_str: &[u8]) -> (r: Result<(), VocabError>)
        requires
            old(self)@.wf(),
        ensures
            final(self)@.wf(),
            match r {
                Ok(()) => removable(old(self)@, token_str@) && removed(
                    old(self)@,
                    final(self)@,
                    token_str@,
                ),
                Err(e) => *final(self) == *old(self) && ((e == VocabError::NotFound && !old(
                    self,
                )@.has_str(token_str@)) || (e == VocabError::Unremovable && old(self)@.has_str(
                    token_str@,
                ) && !removable(old(self)@, token_str@))),
            },
    {
        proof {
            lemma_lookup(self@, token_str@);
        }
        let token_id = match self.find_token(token_str) {
            Some(i) => i,
            None => {
                return Err(VocabError::NotFound);
            },
        };
        if token_id < 256 || self.tokens[token_id].is_mandatory {
            return Err(VocabError::Unremovable);
        }
        self.tokens.remove(token_id);
        proof {
            assert(self@.toks =~= old(self)@.toks.remove(token_id as int));
            lemma_wf_after_remove(old(self)@, self@, token_id as int);
        }
        Ok(())
    }
}

/// The reverse map names a non-literal, non-mandatory token for `s`.
pub open spec fn removable(vm: VocabModel, s: Seq<u8>) -> bool {
    match vm.lookup(s) {
        Some(j) => 256 <= j && !vm.toks[j].is_mandatory,
        None => false,
    }
}

/// `new` is `old` with the reverse-map entry for `s` removed.
pub open spec fn removed(old: VocabModel, new: VocabModel, s: Seq<u8>) -> bool {
    match old.lookup(s) {
        Some(j) => {
            &&& new.toks == old.toks.remove(j)
            &&& new.literal_cost == old.literal_cost
            &&& new.fallback16 == old.fallback16
        },
        None => false,
    }
}

proof fn lemma_wf_after_push(old: VocabModel, new: VocabModel, s: Seq<u8>)
    requires
        old.wf(),
        s.len() >= 1,
        !old.has_nonliteral(s),
        new.toks.len() == old.toks.len() + 1,
        forall|i: int| 0 <= i < old.toks.len() ==> new.toks[i] == old.toks[i],
        new.toks.last() == (TokModel {
            string: s,
            is_literal: false,
            is_mandatory: new.toks.last().is_mandatory,
            suffix: None::<int>,
            cost: 1,
        }),
        new.literal_cost == old.literal_cost,
    ensures
        new.wf(),
{
    assert forall|i: int, j: int| 256 <= i < j < new.n() implies #[trigger] new.str_at(i)
        != #[trigger] new.str_at(j) by {
        if j == new.n() - 1 {
            assert(new.str_at(i) == old.str_at(i));
            if new.str_at(i) == s {
                assert(old.has_nonliteral(s));
            }
        } else {
            assert(new.str_at(i) == old.str_at(i));
            assert(new.str_at(j) == old.str_at(j));
        }
    }
}

/// Both catalogs hold the same token strings at the same indices.
pub open spec fn same_strings(a: VocabModel, b: VocabModel) -> bool {
    &&& a.n() == b.n()
    &&& forall|i: int| 0 <= i < a.n() ==> a.str_at(i) == b.str_at(i)
}

/// The two tokens agree on everything but the suffix link.
pub open spec fn same_token_mod_suffix(a: TokModel, b: TokModel) -> bool {
    &&& a.string == b.string
    &&& a.is_literal == b.is_literal
    &&& a.is_mandatory == b.is_mandatory
    &&& a.cost == b.cost
}

/// Catalogs with the same strings resolve reverse-map lookups identically.
pub proof fn lemma_lookup_congruent(a: VocabModel, b: VocabModel, s: Seq<u8>, n: int)
    requires
        same_strings(a, b),
        n <= a.n(),
    ensures
        a.lookup_below(s, n) == b.lookup_below(s, n),
    decreases n,
{
    if n > 0 {
        lemma_lookup_congruent(a, b, s, n - 1);
    }
}

/// Catalogs with the same strings compute the same suffix links.
pub proof fn lemma_suffix_link_congruent(a: VocabModel, b: VocabModel, s: Seq<u8>, start: int)
    requires
        same_strings(a, b),
    ensures
        a.suffix_link_from(s, start) == b.suffix_link_from(s, start),
    decreases s.len() - start,
{
    if 1 <= start < s.len() {
        lemma_lookup_congruent(a, b, s.subrange(start, s.len() as int), a.n());
        lemma_suffix_link_congruent(a, b, s, start + 1);
    }
}

proof fn lemma_wf_after_remove(old: VocabModel, new: VocabModel, j: int)
    requires
        old.wf(),
        256 <= j < old.n(),
        new.toks == old.toks.remove(j),
        new.literal_cost == old.literal_cost,
    ensures
        new.wf(),
{
    assert forall|a: int, b: int| 256 <= a < b < new.n() implies #[trigger] new.str_at(a)
        != #[trigger] new.str_at(b) by {
        let a0 = if a < j { a } else { a + 1 };
        let b0 = if b < j { b } else { b + 1 };
        assert(new.str_at(a) == old.str_at(a0));
        assert(new.str_at(b) == old.str_at(b0));
    }
}

impl TokenSet {
    /// Builds the literal block: 256 single-byte literals indexed by value.
    fn build_literals(literal_cost: usize, fallback16: bool) -> (r: TokenSet)
        requires
            literal_cost >= 1,
        ensures
            r@.wf(),
            r@.n() == 256,
            r@.literal_cost == literal_cost,
            r@.fallback16 == fallback16,
    {
        let mut token_set = TokenSet { tokens: Vec::new(), literal_cost, fallback16 };
        let mut i: usize = 0;
        while i < 256
            invariant
                i <= 256,
                token_set@.n() == i,
                token_set@.literal_cost == literal_cost,
                token_set@.fallback16 == fallback16,
                forall|j: int| 0 <= j < i ==> {
                    let t = #[trigger] token_set@.toks[j];
                    &&& t.string.len() == 1
                    &&& t.string[0] == j as u8
                    &&& t.is_literal
                    &&& !t.is_mandatory
                    &&& t.cost == literal_cost
                    &&& t.suffix is None
                },
            decreases 256 - i,
        {
            token_set.add_literal(i as u8);
            i = i + 1;
        }
        token_set
    }

    /// Builds the hex-fallback preset: literal cost 3, with mandatory tokens
    /// for the byte 0x10 and the ASCII digits '0'..'9' and 'a'..'f'.
    #[verifier::spinoff_prover]
    pub fn build_with_hex_literals() -> (r: TokenSet)
        ensures
            r@.wf(),
            r@.n() == 273,
            r@.literal_cost == 3,
            r@.fallback16,
            forall|i: int| 256 <= i < 273 ==> (#[trigger] r@.toks[i]).is_mandatory,
            r@.str_at(256) == seq![0x10u8],
            forall|k: int| 0 <= k < 10 ==> #[trigger] r@.str_at(257 + k) == seq![(0x30 + k) as u8],
            forall|k: int| 0 <= k < 6 ==> #[trigger] r@.str_at(267 + k) == seq![(0x61 + k) as u8],
    {
        let mut token_set = Self::build_literals(3, true);
        let marker = [0x10u8];
        let r0 = token_set.add_mandatory_token(marker.as_slice());
        proof {
            assert(marker@ =~= seq![0x10u8]);
        }
        let mut k: usize = 0;
        while k < 10
            invariant
                k <= 10,
                token_set@.wf(),
                token_set@.n() == 257 + k,
                token_set@.literal_cost == 3,
                token_set@.fallback16,
                forall|i: int| 256 <= i < 257 + k ==> (#[trigger] token_set@.toks[i]).is_mandatory,
                token_set@.str_at(256) == seq![0x10u8],
                forall|j: int| 0 <= j < k ==> #[trigger] token_set@.str_at(257 + j) == seq![
                    (0x30 + j) as u8,
                ],
            decreases 10 - k,
        {
            let digit = [0x30u8 + k as u8];
            proof {
                assert(digit@ =~= seq![(0x30 + k) as u8]);
                assert forall|i: int| 256 <= i < token_set@.n() implies #[trigger] token_set@.str_at(
                    i,
                ) != digit@ by {
                    if i == 256 {
                        assert(token_set@.str_at(i)[0] == 0x10);
                    } else {
                        let j = i - 257;
                        assert(token_set@.str_at(257 + j) == seq![(0x30 + j) as u8]);
                        assert(token_set@.str_at(i)[0] == (0x30 + j) as u8);
                    }
                    assert(digit@[0] == (0x30 + k) as u8);
                }
            }
            let ghost pre = token_set@;
            let r1 = token_set.add_mandatory_token(digit.as_slice());
            proof {
                assert forall|j: int| 0 <= j < k + 1 implies #[trigger] token_set@.str_at(257 + j)
                    == seq![(0x30 + j) as u8] by {
                    if j < k {
                        assert(pre.str_at(257 + j) == seq![(0x30 + j) as u8]);
                        assert(token_set@.toks[257 + j] == pre.toks[257 + j]);
                    } else {
                        assert(token_set@.toks[257 + j] == token_set@.toks.last());
                        assert(digit@ == seq![(0x30 + k) as u8]);
                    }
                }
                assert(pre.str_at(256) == seq![0x10u8]);
                assert(token_set@.toks[256] == pre.toks[256]);
            }
            k = k + 1;
        }
        let mut k: usize = 0;
        while k < 6
            invariant
                k <= 6,
                token_set@.wf(),
                token_set@.n() == 267 + k,
                token_set@.literal_cost == 3,
                token_set@.fallback16,
                forall|i: int| 256 <= i < 267 + k ==> (#[trigger] token_set@.toks[i]).is_mandatory,
                token_set@.str_at(256) == seq![0x10u8],
                forall|j: int| 0 <= j < 10 ==> #[trigger] token_set@.str_at(257 + j) == seq![
                    (0x30 + j) as u8,
                ],
                forall|j: int| 0 <= j < k ==> #[trigger] token_set@.str_at(267 + j) == seq![
                    (0x61 + j) as u8,
                ],
            decreases 6 - k,
        {
            let letter = [0x61u8 + k as u8];
            proof {
                assert(letter@ =~= seq![(0x61 + k) as u8]);
                assert forall|i: int| 256 <= i < token_set@.n() implies #[trigger] token_set@.str_at(
                    i,
                ) != letter@ by {
                    if i == 256 {
                        assert(token_set@.str_at(i)[0] == 0x10);
                    } else if i < 267 {
                        let j = i - 257;
                        assert(token_set@.str_at(257 + j) == seq![(0x30 + j) as u8]);
                        assert(token_set@.str_at(i)[0] == (0x30 + j) as u8);
                    } else {
                        let j = i - 267;
                        assert(token_set@.str_at(267 + j) == seq![(0x61 + j) as u8]);
                        assert(token_set@.str_at(i)[0] == (0x61 + j) as u8);
                    }
                    assert(letter@[0] == (0x61 + k) as u8);
                }
            }
            let ghost pre = token_set@;
            let r1 = token_set.add_mandatory_token(letter.as_slice());
            proof {
                assert(pre.str_at(256) == seq![0x10u8]);
                assert(token_set@.toks[256] == pre.toks[256]);
                assert forall|j: int| 0 <= j < 10 implies #[trigger] token_set@.str_at(257 + j)
                    == seq![(0x30 + j) as u8] by {
                    assert(pre.str_at(257 + j) == seq![(0x30 + j) as u8]);
                    assert(token_set@.toks[257 + j] == pre.toks[257 + j]);
                }
                assert forall|j: int| 0 <= j < k + 1 implies #[trigger] token_set@.str_at(267 + j)
                    == seq![(0x61 + j) as u8] by {
                    if j < k {
                        assert(pre.str_at(267 + j) == seq![(0x61 + j) as u8]);
                        assert(token_set@.toks[267 + j] == pre.toks[267 + j]);
                    } else {
                        assert(token_set@.toks[267 + j] == token_set@.toks.last());
                        assert(letter@ == seq![(0x61 + k) as u8]);
                    }
                }
            }
            k = k + 1;
        }
        token_set
    }

    /// Builds the bin-fallback preset: literal cost 8, with mandatory tokens
    /// for the bytes 0x11 and 0x12.
    #[verifier::spinoff_prover]
    pub fn build_with_bin_literals() -> (r: TokenSet)
        ensures
            r@.wf(),
            r@.n() == 258,
            r@.literal_cost == 8,
            !r@.fallback16,
            forall|i: int| 256 <= i < 258 ==> (#[trigger] r@.toks[i]).is_mandatory,
            r@.str_at(256) == seq![0x11u8],
            r@.str_at(257) == seq![0x12u8],
    {
        let mut token_set = Self::build_literals(8, false);
        let m1 = [0x11u8];
        let r1 = token_set.add_mandatory_token(m1.as_slice());
        proof {
            assert(m1@ =~= seq![0x11u8]);
        }
        let m2 = [0x12u8];
        proof {
            assert(m2@ =~= seq![0x12u8]);
            assert forall|i: int| 256 <= i < token_set@.n() implies #[trigger] token_set@.str_at(i)
                != m2@ by {
                assert(token_set@.str_at(i)[0] != m2@[0]);
            }
        }
        let r2 = token_set.add_mandatory_token(m2.as_slice());
        token_set
    }

    /// Computes the suffix link for token `i` against the current catalog:
    /// the reverse-map entry of its longest proper suffix that is a token
    /// string, scanning start offsets upward.
    fn scan_suffix_link(&self, i: usize) -> (r: Option<usize>)
        requires
            i < self@.n(),
        ensures
            match r {
                Some(j) => self@.suffix_link_of(self@.str_at(i as int)) == Some(j as int),
                None => self@.suffix_link_of(self@.str_at(i as int)) is None,
            },
    {
        let sl: &[u8] = self.tokens[i].string.as_slice();
        let len = sl.len();
        let mut start: usize = 1;
        while start < len
            invariant
                1 <= start,
                len == sl@.len(),
                sl@ == self@.str_at(i as int),
                i < self@.n(),
                self@.suffix_link_of(sl@) == self@.suffix_link_from(sl@, start as int),
            decreases len - start,
        {
            let sub = &sl[start..len];
            match self.find_token(sub) {
                Some(j) => {
                    return Some(j);
                },
                None => {},
            }
            start = start + 1;
        }
        None
    }

    /// Recomputes every suffix link against the current catalog.  Call after
    /// any addition or removal, before building an automaton.
    #[verifier::spinoff_prover]
    pub fn generate_suffixes(&mut self)
        requires
            old(self)@.wf(),
        ensures
            final(self)@.wf(),
            final(self)@.suffixes_ok(),
            same_strings(old(self)@, final(self)@),
            final(self)@.literal_cost == old(self)@.literal_cost,
            final(self)@.fallback16 == old(self)@.fallback16,
            forall|i: int| 0 <= i < old(self)@.n() ==> same_token_mod_suffix(
                old(self)@.toks[i],
                #[trigger] final(self)@.toks[i],
            ),
    {
        let n = self.tokens.len();
        let mut i: usize = 256;
        while i < n
            invariant
                256 <= i <= n,
                n == self@.n(),
                self@.wf(),
                same_strings(old(self)@, self@),
                self@.literal_cost == old(self)@.literal_cost,
                self@.fallback16 == old(self)@.fallback16,
                forall|j: int| 0 <= j < n ==> same_token_mod_suffix(
                    old(self)@.toks[j],
                    #[trigger] self@.toks[j],
                ),
                forall|j: int| 256 <= j < i ==> #[trigger] self@.suffix_ok_at(j),
            decreases n - i,
        {
            let ghost pre = self@;
            let link = self.scan_suffix_link(i);
            let s_copy = copy_bytes(self.tokens[i].string.as_slice());
            let lit = self.tokens[i].is_literal;
            let mand = self.tokens[i].is_mandatory;
            let cost = self.tokens[i].cost;
            self.tokens.set(i, Token { string: s_copy, is_literal: lit, is_mandatory: mand, suffix: link, cost });
            proof {
                let cur = self@;
                assert forall|j: int| 0 <= j < n && j != i implies cur.toks[j] == pre.toks[j] by {}
                assert(cur.toks[i as int].string == pre.toks[i as int].string);
                assert(same_token_mod_suffix(pre.toks[i as int], cur.toks[i as int]));
                assert(same_strings(pre, cur));
                assert(cur.wf());
                lemma_suffix_link_congruent(pre, cur, cur.str_at(i as int), 1);
                assert(cur.suffix_ok_at(i as int));
                assert forall|j: int| 256 <= j < i implies #[trigger] cur.suffix_ok_at(j) by {
                    assert(pre.suffix_ok_at(j));
                    lemma_suffix_link_congruent(pre, cur, cur.str_at(j), 1);
                }
            }
            i = i + 1;
        }
        proof {
            assert forall|j: int| 0 <= j < 256 implies #[trigger] self@.suffix_ok_at(j) by {
                assert(self@.str_at(j).len() == 1);
                assert(self@.suffix_link_from(self@.str_at(j), 1) is None);
            }
        }
    }
}

impl TokenSet {
    /// A deep copy with the same mathematical content.
    pub fn duplicate(&self) -> (r: TokenSet)
        ensures
            r@ == self@,
    {
        let mut toks: Vec<Token> = Vec::new();
        let n = self.tokens.len();
        let mut i: usize = 0;
        while i < n
            invariant
                i <= n,
                n == self.tokens@.len(),
                toks@.len() == i,
                forall|j: int| 0 <= j < i ==> #[trigger] toks@[j]@ == self.tokens@[j]@,
            decreases n - i,
        {
            let t = Token {
                string: copy_bytes(self.tokens[i].string.as_slice()),
                is_literal: self.tokens[i].is_literal,
                is_mandatory: self.tokens[i].is_mandatory,
                suffix: self.tokens[i].suffix,
                cost: self.tokens[i].cost,
            };
            proof {
                assert(t@ =~= self.tokens@[i as int]@);
            }
            toks.push(t);
            i = i + 1;
        }
        let r = TokenSet { tokens: toks, literal_cost: self.literal_cost, fallback16: self.fallback16 };
        proof {
            assert(r@ =~= self@);
        }
        r
    }
}

/// Every mandatory token string of `a` is one of `b`.
pub open spec fn mandatory_subset(a: VocabModel, b: VocabModel) -> bool {
    forall|s: Seq<u8>| #[trigger] a.has_mandatory(s) ==> b.has_mandatory(s)
}

/// The two catalogs hold exactly the same mandatory token strings.
pub open spec fn same_mandatory(a: VocabModel, b: VocabModel) -> bool {
    mandatory_subset(a, b) && mandatory_subset(b, a)
}

/// What appending one non-literal token does to the string sets.
#[verifier::spinoff_prover]
pub proof fn lemma_pushed_sets(old: VocabModel, new: VocabModel, s: Seq<u8>, mand: bool)
    requires
        old.n() >= 256,
        pushed_token(old, new, s, false, mand, 1),
    ensures
        forall|s2: Seq<u8>| #[trigger] new.has_nonliteral(s2) == (old.has_nonliteral(s2) || s2
            == s),
        forall|s2: Seq<u8>| #[trigger] new.has_mandatory(s2) == (old.has_mandatory(s2) || (mand
            && s2 == s)),
{
    let m = old.toks.len() as int;
    assert forall|s2: Seq<u8>| #[trigger] new.has_nonliteral(s2) == (old.has_nonliteral(s2) || s2
        == s) by {
        if new.has_nonliteral(s2) {
            let w = choose|w: int| 256 <= w < new.n() && new.str_at(w) == s2;
            if w < m {
                assert(old.str_at(w) == s2);
            } else {
                assert(new.str_at(m) == s);
            }
        }
        if old.has_nonliteral(s2) {
            let w = choose|w: int| 256 <= w < old.n() && old.str_at(w) == s2;
            assert(new.str_at(w) == s2);
        }
        if s2 == s {
            assert(new.str_at(m) == s2);
        }
    }
    assert forall|s2: Seq<u8>| #[trigger] new.has_mandatory(s2) == (old.has_mandatory(s2) || (mand
        && s2 == s)) by {
        if new.has_mandatory(s2) {
            let w = choose|w: int|
                256 <= w < new.n() && new.str_at(w) == s2 && new.toks[w].is_mandatory;
            if w < m {
                assert(old.str_at(w) == s2 && old.toks[w].is_mandatory);
            } else {
                assert(new.str_at(m) == s && new.toks[m].is_mandatory == mand);
            }
        }
        if old.has_mandatory(s2) {
            let w = choose|w: int|
                256 <= w < old.n() && old.str_at(w) == s2 && old.toks[w].is_mandatory;
            assert(new.str_at(w) == s2 && new.toks[w].is_mandatory);
        }
        if mand && s2 == s {
            assert(new.str_at(m) == s2 && new.toks[m].is_mandatory);
        }
    }
}

/// What removing one optional non-literal token does to the string sets.
#[verifier::spinoff_prover]
pub proof fn lemma_removed_sets(old: VocabModel, new: VocabModel, s: Seq<u8>)
    requires
        old.wf(),
        removed(old, new, s),
        match old.lookup(s) {
            Some(j) => j >= 256 && !old.toks[j].is_mandatory,
            None => false,
        },
    ensures
        forall|s2: Seq<u8>| #[trigger] new.has_nonliteral(s2) == (old.has_nonliteral(s2) && s2
            != s),
        forall|s2: Seq<u8>| #[trigger] new.has_mandatory(s2) == old.has_mandatory(s2),
        new.n() == old.n() - 1,
        old.has_nonliteral(s),
{
    lemma_lookup(old, s);
    let j = old.lookup(s).unwrap();
    assert(old.str_at(j) == s);
    assert(new.toks == old.toks.remove(j));
    assert(new.toks.len() == old.toks.len() - 1);
    assert forall|w: int| 0 <= w < new.n() implies new.toks[w] == old.toks[if w < j {
        w
    } else {
        w + 1
    }] by {}
    assert forall|s2: Seq<u8>| #[trigger] new.has_nonliteral(s2) == (old.has_nonliteral(s2) && s2
        != s) by {
        if new.has_nonliteral(s2) {
            let w = choose|w: int| 256 <= w < new.n() && new.str_at(w) == s2;
            let w0 = if w < j {
                w
            } else {
                w + 1
            };
            assert(old.str_at(w0) == s2);
            if s2 == s {
                assert(old.str_at(w0) == old.str_at(j) && w0 != j);
                assert(false);
            }
        }
        if old.has_nonliteral(s2) && s2 != s {
            let w0 = choose|w0: int| 256 <= w0 < old.n() && old.str_at(w0) == s2;
            assert(w0 != j);
            let w = if w0 < j {
                w0
            } else {
                w0 - 1
            };
            assert(new.str_at(w) == s2);
            assert(256 <= w);
        }
    }
    assert forall|s2: Seq<u8>| #[trigger] new.has_mandatory(s2) == old.has_mandatory(s2) by {
        if new.has_mandatory(s2) {
            let w = choose|w: int|
                256 <= w < new.n() && new.str_at(w) == s2 && new.toks[w].is_mandatory;
            let w0 = if w < j {
                w
            } else {
                w + 1
            };
            assert(old.str_at(w0) == s2 && old.toks[w0].is_mandatory);
        }
        if old.has_mandatory(s2) {
            let w0 = choose|w0: int|
                256 <= w0 < old.n() && old.str_at(w0) == s2 && old.toks[w0].is_mandatory;
            assert(w0 != j);
            let w = if w0 < j {
                w0
            } else {
                w0 - 1
            };
            assert(new.str_at(w) == s2 && new.toks[w].is_mandatory);
            assert(256 <= w);
        }
    }
}

/// Sharing mandatory strings is transitive.
pub proof fn lemma_same_mandatory_trans(a: VocabModel, b: VocabModel, c: VocabModel)
    requires
        same_mandatory(a, b),
        same_mandatory(b, c),
    ensures
        same_mandatory(a, c),
{
    assert forall|s: Seq<u8>| #[trigger] a.has_mandatory(s) implies c.has_mandatory(s) by {
        assert(b.has_mandatory(s));
    }
    assert forall|s: Seq<u8>| #[trigger] c.has_mandatory(s) implies a.has_mandatory(s) by {
        assert(b.has_mandatory(s));
    }
}

/// The reverse map names a removable token for `s` exactly when some
/// non-literal holds `s` and no mandatory token does.
pub proof fn lemma_removable_char(vm: VocabModel, s: Seq<u8>)
    requires
        vm.wf(),
    ensures
        removable(vm, s) == (vm.has_nonliteral(s) && !vm.has_mandatory(s)),
{
    lemma_lookup(vm, s);
    match vm.lookup(s) {
        Some(j) => {
            if j >= 256 {
                assert(vm.has_nonliteral(s));
                if vm.has_mandatory(s) {
                    let w = choose|w: int|
                        256 <= w < vm.n() && vm.str_at(w) == s && vm.toks[w].is_mandatory;
                    assert(w == j);
                } else {
                    assert(!vm.toks[j].is_mandatory);
                }
            } else {
                if vm.has_nonliteral(s) {
                    let w = choose|w: int| 256 <= w < vm.n() && vm.str_at(w) == s;
                    assert(vm.str_at(w) != s);
                }
            }
        },
        None => {
            if vm.has_nonliteral(s) {
                let w = choose|w: int| 256 <= w < vm.n() && vm.str_at(w) == s;
                assert(vm.has_str(s));
            }
        },
    }
}

} // verus!
