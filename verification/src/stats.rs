//! Per-pass segmentation statistics and their element-wise reducer.

use crate::tokens::TokenSet;
use vstd::prelude::*;

verus! {

/// Statistics gathered over one pass: how often each token was emitted, how
/// often each adjacent token pair occurred (`a * n + b` buckets, with bucket
/// second-component 0 as the end-of-buffer sentinel), the total segmentation
/// cost, and the number of bytes scanned.
pub struct TokenStats {
    pub token_count: Vec<usize>,
    pub pair_count: Vec<usize>,
    pub cost: usize,
    pub scanned_bytes: usize,
}

/// The mathematical content of a statistics record.
#[verifier::ext_equal]
pub struct StatsModel {
    pub counts: Seq<int>,
    pub pairs: Seq<int>,
    pub cost: int,
    pub scanned: int,
}

impl View for TokenStats {
    type V = StatsModel;

    open spec fn view(&self) -> StatsModel {
        StatsModel {
            counts: Seq::new(self.token_count@.len(), |i: int| self.token_count@[i] as int),
            pairs: Seq::new(self.pair_count@.len(), |i: int| self.pair_count@[i] as int),
            cost: self.cost as int,
            scanned: self.scanned_bytes as int,
        }
    }
}

impl StatsModel {
    /// Shaped for a catalog of `n` tokens.
    pub open spec fn wf_for(self, n: int) -> bool {
        &&& self.counts.len() == n
        &&& self.pairs.len() == n * n
    }

    /// All-zero statistics of the same shape.
    pub open spec fn is_zero(self) -> bool {
        &&& forall|i: int| 0 <= i < self.counts.len() ==> #[trigger] self.counts[i] == 0
        &&& forall|i: int| 0 <= i < self.pairs.len() ==> #[trigger] self.pairs[i] == 0
        &&& self.cost == 0
        &&& self.scanned == 0
    }

    /// Every count is bounded by the bytes scanned, and the cost by
    /// `scanned * literal_cost`: what one pass over that many bytes can
    /// produce.
    pub open spec fn bounded(self, literal_cost: int) -> bool {
        &&& self.scanned >= 0
        &&& forall|i: int| 0 <= i < self.counts.len() ==> 0 <= #[trigger] self.counts[i]
            <= self.scanned
        &&& forall|i: int| 0 <= i < self.pairs.len() ==> 0 <= #[trigger] self.pairs[i]
            <= self.scanned
        &&& 0 <= self.cost <= self.scanned * literal_cost
    }
}

/// The element-wise sum of two statistics records of the same shape.
pub open spec fn stats_plus(a: StatsModel, b: StatsModel) -> StatsModel {
    StatsModel {
        counts: Seq::new(a.counts.len(), |i: int| a.counts[i] + b.counts[i]),
        pairs: Seq::new(a.pairs.len(), |i: int| a.pairs[i] + b.pairs[i]),
        cost: a.cost + b.cost,
        scanned: a.scanned + b.scanned,
    }
}

/// Statistics addition is commutative.
pub proof fn lemma_stats_plus_commutes(a: StatsModel, b: StatsModel)
    requires
        a.counts.len() == b.counts.len(),
        a.pairs.len() == b.pairs.len(),
    ensures
        stats_plus(a, b) == stats_plus(b, a),
{
    assert(stats_plus(a, b) =~= stats_plus(b, a));
}

/// Statistics addition is associative.
pub proof fn lemma_stats_plus_associates(a: StatsModel, b: StatsModel, c: StatsModel)
    requires
        a.counts.len() == b.counts.len() == c.counts.len(),
        a.pairs.len() == b.pairs.len() == c.pairs.len(),
    ensures
        stats_plus(stats_plus(a, b), c) == stats_plus(a, stats_plus(b, c)),
{
    assert(stats_plus(stats_plus(a, b), c) =~= stats_plus(a, stats_plus(b, c)));
}

/// A vector of `n` zeros.
fn zero_counts(n: usize) -> (r: Vec<usize>)
    ensures
        r@.len() == n,
        forall|i: int| 0 <= i < n ==> r@[i] == 0,
{
    let mut r: Vec<usize> = Vec::new();
    while r.len() < n
        invariant
            r@.len() <= n,
            forall|i: int| 0 <= i < r@.len() ==> r@[i] == 0,
        decreases n - r@.len(),
    {
        r.push(0);
    }
    r
}

impl TokenStats {
    /// Fresh all-zero statistics shaped for `token_set`.
    pub fn new(token_set: &TokenSet) -> (r: TokenStats)
        requires
            token_set@.n() * token_set@.n() <= usize::MAX,
        ensures
            r@.wf_for(token_set@.n()),
            r@.is_zero(),
    {
        let n = token_set.tokens.len();
        let nn = n * n;
        TokenStats {
            token_count: zero_counts(n),
            pair_count: zero_counts(nn),
            cost: 0,
            scanned_bytes: 0,
        }
    }

    /// Adds `other` into `self`, element-wise.
    pub fn add(&mut self, other: &TokenStats)
        requires
            old(self).token_count@.len() == other.token_count@.len(),
            old(self).pair_count@.len() == other.pair_count@.len(),
            forall|i: int| 0 <= i < old(self).token_count@.len() ==> old(
                self,
            ).token_count@[i] + other.token_count@[i] <= usize::MAX,
            forall|i: int| 0 <= i < old(self).pair_count@.len() ==> old(self).pair_count@[i]
                + other.pair_count@[i] <= usize::MAX,
            old(self).cost + other.cost <= usize::MAX,
            old(self).scanned_bytes + other.scanned_bytes <= usize::MAX,
        ensures
            final(self)@ == stats_plus(old(self)@, other@),
    {
        let n = self.token_count.len();
        let mut i: usize = 0;
        while i < n
            invariant
                i <= n,
                n == self.token_count@.len(),
                self.token_count@.len() == other.token_count@.len(),
                forall|k: int| 0 <= k < n ==> old(self).token_count@[k] + other.token_count@[k]
                    <= usize::MAX,
                forall|k: int| i <= k < n ==> #[trigger] self.token_count@[k] == old(
                    self,
                ).token_count@[k],
                forall|k: int| 0 <= k < i ==> #[trigger] self.token_count@[k] == old(
                    self,
                ).token_count@[k] + other.token_count@[k],
                self.pair_count@ == old(self).pair_count@,
                self.cost == old(self).cost,
                self.scanned_bytes == old(self).scanned_bytes,
            decreases n - i,
        {
            let v = self.token_count[i] + other.token_count[i];
            self.token_count.set(i, v);
            i = i + 1;
        }
        let m = self.pair_count.len();
        let mut i: usize = 0;
        while i < m
            invariant
                i <= m,
                m == self.pair_count@.len(),
                self.pair_count@.len() == other.pair_count@.len(),
                forall|k: int| 0 <= k < m ==> old(self).pair_count@[k] + other.pair_count@[k]
                    <= usize::MAX,
                forall|k: int| i <= k < m ==> #[trigger] self.pair_count@[k] == old(
                    self,
                ).pair_count@[k],
                forall|k: int| 0 <= k < i ==> #[trigger] self.pair_count@[k] == old(
                    self,
                ).pair_count@[k] + other.pair_count@[k],
                self.token_count@.len() == old(self).token_count@.len(),
                forall|k: int| 0 <= k < self.token_count@.len() ==> #[trigger] self.token_count@[k]
                    == old(self).token_count@[k] + other.token_count@[k],
                self.cost == old(self).cost,
                self.scanned_bytes == old(self).scanned_bytes,
            decreases m - i,
        {
            let v = self.pair_count[i] + other.pair_count[i];
            self.pair_count.set(i, v);
            i = i + 1;
        }
        self.cost = self.cost + other.cost;
        self.scanned_bytes = self.scanned_bytes + other.scanned_bytes;
        proof {
            assert(self@ =~= stats_plus(old(self)@, other@));
        }
    }
}

} // verus!
