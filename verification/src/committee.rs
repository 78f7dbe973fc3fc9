use vstd::prelude::*;
use crate::types::{AuthorityIndex, RoundNumber};

verus! {

/// Largest committee the engine accepts; keeps the threshold arithmetic far
/// away from any machine limit.
pub const MAX_COMMITTEE_SIZE: u64 = 1000000;

/// Minimum total weight that certifies a direct commitment: at least `2f + 1`
/// of `3f + 1`, here computed over equal, unit weights.
pub open spec fn quorum_threshold_spec(size: int) -> int {
    2 * size / 3 + 1
}

/// Minimum total weight that guarantees one honest witness: at least `f + 1`.
pub open spec fn validity_threshold_spec(size: int) -> int {
    size / 3 + 1
}

/// The deterministic leader of a round: plain round-robin over the committee.
pub open spec fn elect_leader_spec(size: int, round: int) -> int {
    round % size
}

/// Static mapping from authority index to voting weight. All authorities
/// carry equal weight here, so the committee is its size and the weight of a
/// set of authorities is its cardinality.
#[derive(Clone, Copy, PartialEq, Eq, Structural, Debug)]
pub struct Committee {
    size: u64,
}

impl Committee {
    #[verifier::type_invariant]
    pub closed spec fn inv(self) -> bool {
        1 <= self.size <= MAX_COMMITTEE_SIZE
    }

    pub closed spec fn len_spec(self) -> int {
        self.size as int
    }

    /// A committee of `size` equally weighted authorities, indexed `0..size`.
    pub fn new(size: u64) -> (c: Committee)
        requires
            1 <= size <= MAX_COMMITTEE_SIZE,
        ensures
            c.len_spec() == size,
    {
        Committee { size }
    }

    /// The number of authorities.
    pub fn len(&self) -> (n: u64)
        ensures
            n == self.len_spec(),
            1 <= n <= MAX_COMMITTEE_SIZE,
    {
        proof {
            use_type_invariant(self);
        }
        self.size
    }

    /// Total voting weight (one unit per authority).
    pub fn total_stake(&self) -> (n: u64)
        ensures
            n == self.len_spec(),
    {
        self.len()
    }

    /// Weight that certifies a commit: `2f + 1` out of `3f + 1`.
    pub fn quorum_threshold(&self) -> (t: u64)
        ensures
            t == quorum_threshold_spec(self.len_spec()),
            1 <= t <= self.len_spec(),
    {
        proof {
            use_type_invariant(self);
        }
        2 * self.size / 3 + 1
    }

    /// Weight that guarantees at least one honest witness: `f + 1`.
    pub fn validity_threshold(&self) -> (t: u64)
        ensures
            t == validity_threshold_spec(self.len_spec()),
            1 <= t <= quorum_threshold_spec(self.len_spec()),
    {
        proof {
            use_type_invariant(self);
        }
        self.size / 3 + 1
    }

    /// The elected leader of `round`: round-robin over the authorities.
    pub fn elect_leader(&self, round: RoundNumber) -> (a: AuthorityIndex)
        ensures
            a == elect_leader_spec(self.len_spec(), round as int),
            0 <= a < self.len_spec(),
    {
        proof {
            use_type_invariant(self);
        }
        round % self.size
    }

    /// All authority indices, in order.
    pub fn authorities(&self) -> (auths: Vec<AuthorityIndex>)
        ensures
            auths@.len() == self.len_spec(),
            forall|i: int| 0 <= i < auths@.len() ==> #[trigger] auths@[i] == i,
    {
        proof {
            use_type_invariant(self);
        }
        let n = self.size;
        let mut auths: Vec<AuthorityIndex> = Vec::new();
        let mut a: u64 = 0;
        while a < n
            invariant
                a <= n,
                auths@.len() == a,
                forall|i: int| 0 <= i < auths@.len() ==> #[trigger] auths@[i] == i,
            decreases n - a,
        {
            auths.push(a);
            a = a + 1;
        }
        auths
    }
}

} // verus!
