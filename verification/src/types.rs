use vstd::prelude::*;

verus! {

/// Index of a validator within the committee; stable for the committee's life.
pub type AuthorityIndex = u64;

/// Logical DAG layer; genesis blocks are at round 0.
pub type RoundNumber = u64;

/// Content digest distinguishing blocks that share an author and a round.
/// Computing digests from block contents is the business of the (external)
/// cryptographic layer; the commit engine only compares them for equality.
pub type BlockDigest = u64;

/// Unique identifier of a block: author, round and content digest.
#[derive(Clone, Copy, PartialEq, Eq, Structural, Hash, Debug, PartialOrd, Ord)]
pub struct BlockReference {
    pub authority: AuthorityIndex,
    pub round: RoundNumber,
    pub digest: BlockDigest,
}

impl DeepView for BlockReference {
    type V = BlockReference;

    open spec fn deep_view(&self) -> BlockReference {
        *self
    }
}

impl BlockReference {
    /// Reference with a zero digest, as used by tests and by genesis blocks.
    pub fn new_test(authority: AuthorityIndex, round: RoundNumber) -> (r: BlockReference)
        ensures
            r == (BlockReference { authority, round, digest: 0 }),
    {
        BlockReference { authority, round, digest: 0 }
    }

    pub fn round(&self) -> (r: RoundNumber)
        ensures
            r == self.round,
    {
        self.round
    }
}

/// Mathematical image of a block: its reference and the references it includes.
pub struct BlockView {
    pub reference: BlockReference,
    pub includes: Seq<BlockReference>,
}

/// A block authored by one authority at one round, including (pointing to)
/// blocks of strictly earlier rounds. Immutable once created.
#[derive(Clone, PartialEq, Eq, Hash, Debug, PartialOrd, Ord)]
pub struct StatementBlock {
    reference: BlockReference,
    includes: Vec<BlockReference>,
}

impl View for StatementBlock {
    type V = BlockView;

    closed spec fn view(&self) -> BlockView {
        BlockView { reference: self.reference, includes: self.includes@ }
    }
}

impl DeepView for StatementBlock {
    type V = BlockView;

    open spec fn deep_view(&self) -> BlockView {
        self@
    }
}

/// Round-monotonicity: every included reference has a strictly smaller round
/// than the including block. Together with content addressing this keeps the
/// DAG acyclic.
pub open spec fn block_well_formed(b: BlockView) -> bool {
    forall|i: int|
        0 <= i < b.includes.len() ==> #[trigger] b.includes[i].round < b.reference.round
}

impl StatementBlock {
    /// A genesis block: round 0, no inclusions.
    pub fn new_genesis(authority: AuthorityIndex) -> (b: StatementBlock)
        ensures
            b@.reference == (BlockReference { authority, round: 0, digest: 0 }),
            b@.includes =~= Seq::<BlockReference>::empty(),
            block_well_formed(b@),
    {
        StatementBlock {
            reference: BlockReference { authority, round: 0, digest: 0 },
            includes: Vec::new(),
        }
    }

    /// A block with the given reference and inclusions.
    pub fn new(reference: BlockReference, includes: Vec<BlockReference>) -> (b: StatementBlock)
        requires
            forall|i: int| 0 <= i < includes@.len() ==> #[trigger] includes@[i].round < reference.round,
        ensures
            b@.reference == reference,
            b@.includes == includes@,
            block_well_formed(b@),
    {
        StatementBlock { reference, includes }
    }

    pub fn reference(&self) -> (r: BlockReference)
        ensures
            r == self@.reference,
    {
        self.reference
    }

    pub fn author(&self) -> (a: AuthorityIndex)
        ensures
            a == self@.reference.authority,
    {
        self.reference.authority
    }

    pub fn round(&self) -> (r: RoundNumber)
        ensures
            r == self@.reference.round,
    {
        self.reference.round
    }

    pub fn digest(&self) -> (d: BlockDigest)
        ensures
            d == self@.reference.digest,
    {
        self.reference.digest
    }

    /// An owned copy with the same reference and inclusions.
    pub fn duplicate(&self) -> (b: StatementBlock)
        ensures
            b@ == self@,
    {
        let n = self.includes.len();
        let mut incs: Vec<BlockReference> = Vec::new();
        let mut i: usize = 0;
        while i < n
            invariant
                n == self.includes@.len(),
                i <= n,
                incs@ =~= self.includes@.take(i as int),
            decreases n - i,
        {
            incs.push(self.includes[i]);
            i = i + 1;
        }
        proof {
            assert(self.includes@.take(n as int) =~= self.includes@);
        }
        let b = StatementBlock { reference: self.reference, includes: incs };
        proof {
            assert(b@.includes =~= self@.includes);
        }
        b
    }

    pub fn includes(&self) -> (incs: &Vec<BlockReference>)
        ensures
            incs@ == self@.includes,
    {
        &self.includes
    }
}

} // verus!
