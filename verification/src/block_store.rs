use vstd::prelude::*;
use crate::types::{block_well_formed, BlockReference, BlockView, RoundNumber, StatementBlock};

verus! {

/// Upper bound on round numbers the store accepts; keeps round arithmetic
/// (decision rounds, thresholds) far away from any machine limit.
pub const MAX_ROUND: u64 = 0x3fffffffffffffff;

/// The reference `r` names a block of the DAG.
pub open spec fn contains_ref(dag: Seq<BlockView>, r: BlockReference) -> bool {
    exists|i: int| 0 <= i < dag.len() && (#[trigger] dag[i].reference) == r
}

/// Position of the block named `r` (meaningful when `contains_ref` holds and
/// references are unique).
pub open spec fn index_of(dag: Seq<BlockView>, r: BlockReference) -> int {
    choose|i: int| 0 <= i < dag.len() && (#[trigger] dag[i].reference) == r
}

/// The block of the DAG named by `r`.
pub open spec fn block_of(dag: Seq<BlockView>, r: BlockReference) -> BlockView {
    dag[index_of(dag, r)]
}

/// No two blocks of the DAG share a reference.
pub open spec fn refs_unique(dag: Seq<BlockView>) -> bool {
    forall|i: int, j: int|
        0 <= i < j < dag.len() ==> (#[trigger] dag[i].reference) != (#[trigger] dag[j].reference)
}

/// Every included reference names a block of the DAG: causal completeness.
pub open spec fn dag_closed(dag: Seq<BlockView>) -> bool {
    forall|i: int, k: int|
        0 <= i < dag.len() && 0 <= k < dag[i].includes.len()
            ==> contains_ref(dag, #[trigger] dag[i].includes[k])
}

/// The store's invariant over its contents: unique references, inclusion
/// closedness, round monotonicity of every block, and bounded rounds.
pub open spec fn dag_well_formed(dag: Seq<BlockView>) -> bool {
    &&& refs_unique(dag)
    &&& dag_closed(dag)
    &&& forall|i: int| 0 <= i < dag.len() ==> block_well_formed(#[trigger] dag[i])
    &&& forall|i: int| 0 <= i < dag.len() ==> (#[trigger] dag[i].reference).round <= MAX_ROUND
}

/// Authority `a` authored a block at `round`.
pub open spec fn has_block_at(dag: Seq<BlockView>, a: u64, round: RoundNumber) -> bool {
    exists|i: int|
        0 <= i < dag.len() && (#[trigger] dag[i].reference).authority == a && dag[i].reference.round
            == round
}

/// A DAG under ideal conditions up to round `hi`: every authority owns a
/// block at every round, and every block includes the whole previous layer.
pub open spec fn fully_connected_dag(dag: Seq<BlockView>, n: int, hi: int) -> bool {
    &&& forall|a: u64, r: RoundNumber|
        0 <= a < n && 0 <= r <= hi ==> #[trigger] has_block_at(dag, a, r)
    &&& forall|i: int| 0 <= i < dag.len() ==> (#[trigger] dag[i].reference).round <= hi
    &&& forall|i: int, j: int|
        0 <= i < dag.len() && 0 <= j < dag.len() && dag[i].reference.round >= 1
            && dag[j].reference.round == dag[i].reference.round - 1 ==> (#[trigger] dag[i]).includes.contains(
            (#[trigger] dag[j]).reference,
        )
}

/// The maximum round over all blocks of the DAG (0 when empty).
pub open spec fn highest_round_spec(dag: Seq<BlockView>) -> int
    decreases dag.len(),
{
    if dag.len() == 0 {
        0
    } else {
        let rest = highest_round_spec(dag.drop_last());
        let last = dag.last().reference.round as int;
        if last > rest {
            last
        } else {
            rest
        }
    }
}

pub proof fn lemma_highest_round_bounds(dag: Seq<BlockView>)
    ensures
        forall|i: int|
            0 <= i < dag.len()
                ==> (#[trigger] dag[i].reference).round <= highest_round_spec(dag),
        highest_round_spec(dag) >= 0,
        dag.len() > 0 ==> exists|i: int|
            0 <= i < dag.len() && (#[trigger] dag[i].reference).round == highest_round_spec(dag),
    decreases dag.len(),
{
    if dag.len() > 0 {
        lemma_highest_round_bounds(dag.drop_last());
        assert forall|i: int| 0 <= i < dag.len() implies
            (#[trigger] dag[i].reference).round <= highest_round_spec(dag) by {
            if i < dag.len() - 1 {
                assert(dag.drop_last()[i] == dag[i]);
            }
        }
        if dag.len() > 1 && highest_round_spec(dag.drop_last()) > dag.last().reference.round {
            let j = choose|i: int|
                0 <= i < dag.drop_last().len() && (#[trigger] dag.drop_last()[i].reference).round
                    == highest_round_spec(dag.drop_last());
            assert(dag[j].reference.round == highest_round_spec(dag));
        } else {
            assert(dag[dag.len() - 1].reference.round == highest_round_spec(dag));
        }
    }
}

pub proof fn lemma_highest_round_push(dag: Seq<BlockView>, b: BlockView)
    ensures
        highest_round_spec(dag.push(b)) == if b.reference.round > highest_round_spec(dag) {
            b.reference.round as int
        } else {
            highest_round_spec(dag)
        },
{
    assert(dag.push(b).drop_last() =~= dag);
    assert(dag.push(b).last() == b);
}

/// `to` is reachable from `from` along include-edges within `fuel` steps.
pub open spec fn reaches_in(
    dag: Seq<BlockView>,
    from: BlockReference,
    to: BlockReference,
    fuel: nat,
) -> bool
    decreases fuel,
{
    ||| from == to
    ||| (fuel > 0 && contains_ref(dag, from) && exists|k: int|
        0 <= k < block_of(dag, from).includes.len() && reaches_in(
            dag,
            #[trigger] block_of(dag, from).includes[k],
            to,
            (fuel - 1) as nat,
        ))
}

/// `to` lies in the causal history of `from`: graph reachability along
/// include-edges. Rounds decrease strictly along every edge, so `from.round`
/// steps always suffice.
pub open spec fn linked_spec(dag: Seq<BlockView>, from: BlockReference, to: BlockReference) -> bool {
    reaches_in(dag, from, to, from.round as nat)
}

/// Each member of a well-formed DAG is the block its own reference names.
pub proof fn lemma_block_of_index(dag: Seq<BlockView>, j: int)
    requires
        refs_unique(dag),
        0 <= j < dag.len(),
    ensures
        index_of(dag, dag[j].reference) == j,
        block_of(dag, dag[j].reference) == dag[j],
        contains_ref(dag, dag[j].reference),
{
    assert(contains_ref(dag, dag[j].reference));
    let i = index_of(dag, dag[j].reference);
    assert(0 <= i < dag.len() && dag[i].reference == dag[j].reference);
}

/// Along reachability the round can only go down (or the blocks coincide),
/// and the target is itself a block of the DAG.
pub proof fn lemma_reaches_round(
    dag: Seq<BlockView>,
    from: BlockReference,
    to: BlockReference,
    fuel: nat,
)
    requires
        dag_well_formed(dag),
        reaches_in(dag, from, to, fuel),
    ensures
        from == to || (contains_ref(dag, to) && to.round < from.round),
    decreases fuel,
{
    if from != to {
        let b = block_of(dag, from);
        let k = choose|k: int|
            0 <= k < b.includes.len() && reaches_in(dag, #[trigger] b.includes[k], to, (fuel - 1) as nat);
        let i = index_of(dag, from);
        assert(dag[i] == b);
        assert(block_well_formed(b));
        assert(b.includes[k].round < from.round);
        assert(contains_ref(dag, b.includes[k]));
        lemma_reaches_round(dag, b.includes[k], to, (fuel - 1) as nat);
    }
}

/// More fuel never hurts.
pub proof fn lemma_reaches_fuel_mono(
    dag: Seq<BlockView>,
    from: BlockReference,
    to: BlockReference,
    f1: nat,
    f2: nat,
)
    requires
        reaches_in(dag, from, to, f1),
        f1 <= f2,
    ensures
        reaches_in(dag, from, to, f2),
    decreases f1,
{
    if from != to {
        let b = block_of(dag, from);
        let k = choose|k: int|
            0 <= k < b.includes.len() && reaches_in(dag, #[trigger] b.includes[k], to, (f1 - 1) as nat);
        lemma_reaches_fuel_mono(dag, b.includes[k], to, (f1 - 1) as nat, (f2 - 1) as nat);
    }
}

/// In a well-formed DAG, `from.round` steps of fuel suffice for any
/// reachability fact.
pub proof fn lemma_reaches_to_linked(
    dag: Seq<BlockView>,
    from: BlockReference,
    to: BlockReference,
    fuel: nat,
)
    requires
        dag_well_formed(dag),
        reaches_in(dag, from, to, fuel),
    ensures
        linked_spec(dag, from, to),
    decreases fuel,
{
    if from != to {
        let b = block_of(dag, from);
        let k = choose|k: int|
            0 <= k < b.includes.len() && reaches_in(dag, #[trigger] b.includes[k], to, (fuel - 1) as nat);
        let i = index_of(dag, from);
        assert(dag[i] == b);
        assert(block_well_formed(b));
        assert(b.includes[k].round < from.round);
        lemma_reaches_to_linked(dag, b.includes[k], to, (fuel - 1) as nat);
        lemma_reaches_fuel_mono(dag, b.includes[k], to, b.includes[k].round as nat, (from.round - 1) as nat);
        assert(reaches_in(dag, from, to, from.round as nat));
    }
}

/// A block is linked to each of its direct inclusions.
pub proof fn lemma_linked_step(dag: Seq<BlockView>, from: BlockReference, k: int)
    requires
        dag_well_formed(dag),
        contains_ref(dag, from),
        0 <= k < block_of(dag, from).includes.len(),
    ensures
        linked_spec(dag, from, block_of(dag, from).includes[k]),
{
    let b = block_of(dag, from);
    let i = index_of(dag, from);
    assert(dag[i] == b);
    assert(block_well_formed(b));
    assert(b.includes[k].round < from.round);
    assert(reaches_in(dag, b.includes[k], b.includes[k], (from.round - 1) as nat));
    assert(reaches_in(dag, from, b.includes[k], from.round as nat));
}

/// Reachability is transitive.
pub proof fn lemma_linked_trans(
    dag: Seq<BlockView>,
    a: BlockReference,
    b: BlockReference,
    c: BlockReference,
)
    requires
        dag_well_formed(dag),
        linked_spec(dag, a, b),
        linked_spec(dag, b, c),
    ensures
        linked_spec(dag, a, c),
    decreases a.round,
{
    if a != b {
        let blk = block_of(dag, a);
        let k = choose|k: int|
            0 <= k < blk.includes.len() && reaches_in(
                dag,
                #[trigger] blk.includes[k],
                b,
                (a.round - 1) as nat,
            );
        let i = index_of(dag, a);
        assert(dag[i] == blk);
        assert(block_well_formed(blk));
        assert(blk.includes[k].round < a.round);
        lemma_reaches_to_linked(dag, blk.includes[k], b, (a.round - 1) as nat);
        lemma_linked_trans(dag, blk.includes[k], b, c);
        lemma_reaches_fuel_mono(dag, blk.includes[k], c, blk.includes[k].round as nat, (a.round - 1) as nat);
        assert(reaches_in(dag, a, c, a.round as nat));
    }
}

/// Every reachability fact between distinct blocks ends with a last edge:
/// some block `p` reachable from `from` directly includes `to`.
pub proof fn lemma_reaches_last_edge(
    dag: Seq<BlockView>,
    from: BlockReference,
    to: BlockReference,
)
    requires
        dag_well_formed(dag),
        linked_spec(dag, from, to),
        from != to,
    ensures
        exists|p: BlockReference|
            #![auto]
            contains_ref(dag, p) && linked_spec(dag, from, p) && block_of(dag, p).includes.contains(to),
    decreases from.round,
{
    let b = block_of(dag, from);
    let k = choose|k: int|
        0 <= k < b.includes.len() && reaches_in(dag, #[trigger] b.includes[k], to, (from.round - 1) as nat);
    let i = index_of(dag, from);
    assert(dag[i] == b);
    assert(block_well_formed(b));
    let mid = b.includes[k];
    assert(mid.round < from.round);
    if mid == to {
        assert(b.includes.contains(to));
        assert(reaches_in(dag, from, from, from.round as nat));
        assert(contains_ref(dag, from) && linked_spec(dag, from, from) && block_of(dag, from).includes.contains(to));
    } else {
        lemma_reaches_to_linked(dag, mid, to, (from.round - 1) as nat);
        lemma_reaches_last_edge(dag, mid, to);
        let p = choose|p: BlockReference|
            #![auto]
            contains_ref(dag, p) && linked_spec(dag, mid, p) && block_of(dag, p).includes.contains(to);
        lemma_linked_step(dag, from, k);
        lemma_linked_trans(dag, from, mid, p);
        assert(contains_ref(dag, p) && linked_spec(dag, from, p) && block_of(dag, p).includes.contains(to));
    }
}

/// Membership facts survive appending a block.
pub proof fn lemma_contains_ref_push(dag: Seq<BlockView>, b: BlockView, r: BlockReference)
    requires
        contains_ref(dag, r),
    ensures
        contains_ref(dag.push(b), r),
{
    let i = choose|i: int| 0 <= i < dag.len() && (#[trigger] dag[i].reference) == r;
    assert(dag.push(b)[i].reference == r);
}

/// The blocks of the DAG at `round`, in insertion order.
pub open spec fn blocks_at_round_spec(dag: Seq<BlockView>, round: RoundNumber) -> Seq<BlockView>
    decreases dag.len(),
{
    if dag.len() == 0 {
        Seq::empty()
    } else {
        let rest = blocks_at_round_spec(dag.drop_last(), round);
        if dag.last().reference.round == round {
            rest.push(dag.last())
        } else {
            rest
        }
    }
}

/// The blocks of the DAG authored by `authority` at `round`, in insertion
/// order.
pub open spec fn blocks_at_authority_round_spec(
    dag: Seq<BlockView>,
    authority: u64,
    round: RoundNumber,
) -> Seq<BlockView>
    decreases dag.len(),
{
    if dag.len() == 0 {
        Seq::empty()
    } else {
        let rest = blocks_at_authority_round_spec(dag.drop_last(), authority, round);
        if dag.last().reference.round == round && dag.last().reference.authority == authority {
            rest.push(dag.last())
        } else {
            rest
        }
    }
}

/// Whatever the round filter keeps is a block of the DAG with that round, and
/// conversely every such block is kept.
pub proof fn lemma_blocks_at_round_members(dag: Seq<BlockView>, round: RoundNumber)
    ensures
        forall|i: int|
            0 <= i < blocks_at_round_spec(dag, round).len()
                ==> (#[trigger] blocks_at_round_spec(dag, round)[i]).reference.round == round
                    && dag.contains(blocks_at_round_spec(dag, round)[i]),
        forall|i: int|
            0 <= i < dag.len() && (#[trigger] dag[i].reference).round == round
                ==> blocks_at_round_spec(dag, round).contains(dag[i]),
    decreases dag.len(),
{
    if dag.len() > 0 {
        lemma_blocks_at_round_members(dag.drop_last(), round);
        let sub = blocks_at_round_spec(dag.drop_last(), round);
        let full = blocks_at_round_spec(dag, round);
        assert forall|i: int|
            0 <= i < full.len() implies (#[trigger] full[i]).reference.round == round
                && dag.contains(full[i]) by {
            if i < sub.len() {
                assert(sub[i] == full[i]);
                assert(dag.drop_last().contains(sub[i]));
                let j = choose|j: int| 0 <= j < dag.drop_last().len() && dag.drop_last()[j] == sub[i];
                assert(dag[j] == sub[i]);
            } else {
                assert(full[i] == dag.last());
                assert(dag[dag.len() - 1] == dag.last());
            }
        }
        assert forall|i: int|
            0 <= i < dag.len() && (#[trigger] dag[i].reference).round == round implies full.contains(
            dag[i],
        ) by {
            if i < dag.len() - 1 {
                assert(dag.drop_last()[i] == dag[i]);
                assert(sub.contains(dag[i]));
                let j = choose|j: int| 0 <= j < sub.len() && sub[j] == dag[i];
                assert(full[j] == dag[i]);
            } else {
                assert(full.last() == dag.last());
            }
        }
    }
}

/// Whether the list holds the given reference.
pub(crate) fn ref_list_contains(refs: &Vec<BlockReference>, r: BlockReference) -> (present: bool)
    ensures
        present == refs@.contains(r),
{
    let n = refs.len();
    let mut i: usize = 0;
    while i < n
        invariant
            n == refs@.len(),
            i <= n,
            forall|j: int| 0 <= j < i ==> (#[trigger] refs@[j]) != r,
        decreases n - i,
    {
        let c = refs[i];
        if c.authority == r.authority && c.round == r.round && c.digest == r.digest {
            assert(refs@[i as int] == r);
            return true;
        }
        i = i + 1;
    }
    false
}

/// Whatever the author-and-round filter keeps is a block of the DAG with
/// that author and round, and conversely every such block is kept.
pub proof fn lemma_blocks_at_authority_round_members(
    dag: Seq<BlockView>,
    authority: u64,
    round: RoundNumber,
)
    ensures
        forall|i: int|
            0 <= i < blocks_at_authority_round_spec(dag, authority, round).len()
                ==> (#[trigger] blocks_at_authority_round_spec(dag, authority, round)[i])
                    .reference.round == round
                    && blocks_at_authority_round_spec(dag, authority, round)[i].reference.authority
                    == authority
                    && dag.contains(blocks_at_authority_round_spec(dag, authority, round)[i]),
        forall|i: int|
            0 <= i < dag.len() && (#[trigger] dag[i].reference).round == round
                && dag[i].reference.authority == authority
                ==> blocks_at_authority_round_spec(dag, authority, round).contains(dag[i]),
    decreases dag.len(),
{
    if dag.len() > 0 {
        lemma_blocks_at_authority_round_members(dag.drop_last(), authority, round);
        let sub = blocks_at_authority_round_spec(dag.drop_last(), authority, round);
        let full = blocks_at_authority_round_spec(dag, authority, round);
        assert forall|i: int|
            0 <= i < full.len() implies (#[trigger] full[i]).reference.round == round
                && full[i].reference.authority == authority && dag.contains(full[i]) by {
            if i < sub.len() {
                assert(sub[i] == full[i]);
                assert(dag.drop_last().contains(sub[i]));
                let j = choose|j: int| 0 <= j < dag.drop_last().len() && dag.drop_last()[j] == sub[i];
                assert(dag[j] == sub[i]);
            } else {
                assert(full[i] == dag.last());
                assert(dag[dag.len() - 1] == dag.last());
            }
        }
        assert forall|i: int|
            0 <= i < dag.len() && (#[trigger] dag[i].reference).round == round
                && dag[i].reference.authority == authority implies full.contains(dag[i]) by {
            if i < dag.len() - 1 {
                assert(dag.drop_last()[i] == dag[i]);
                assert(sub.contains(dag[i]));
                let j = choose|j: int| 0 <= j < sub.len() && sub[j] == dag[i];
                assert(full[j] == dag[i]);
            } else {
                assert(full.last() == dag.last());
            }
        }
    }
}

/// A store of admitted blocks: answers existence, frontier and causal-history
/// queries. Read operations are pure; `insert_block` is the only mutation.
pub struct BlockStore {
    blocks: Vec<StatementBlock>,
    highest_round: RoundNumber,
}

impl BlockStore {
    /// The mathematical content of the store: the admitted blocks in
    /// insertion order.
    pub closed spec fn dag(self) -> Seq<BlockView> {
        self.blocks.deep_view()
    }

    pub closed spec fn cache_ok(self) -> bool {
        self.highest_round == highest_round_spec(self.dag())
    }

    /// Validity of a store: well-formed contents and a correct round cache.
    /// Constructors establish it and `insert_block` preserves it.
    pub open spec fn inv(self) -> bool {
        dag_well_formed(self.dag()) && self.cache_ok()
    }

    /// An empty store.
    pub fn new() -> (store: BlockStore)
        ensures
            store.inv(),
            store.dag() =~= Seq::<BlockView>::empty(),
    {
        let store = BlockStore { blocks: Vec::new(), highest_round: 0 };
        proof {
            assert(store.dag() =~= Seq::<BlockView>::empty());
        }
        store
    }

    /// Position of the block named `r`, when it is present.
    fn find_index(&self, r: BlockReference) -> (res: Option<usize>)
        ensures
            match res {
                Some(i) => i < self.dag().len() && self.dag()[i as int].reference == r,
                None => !contains_ref(self.dag(), r),
            },
    {
        let n = self.blocks.len();
        let mut i: usize = 0;
        while i < n
            invariant
                n == self.dag().len(),
                i <= n,
                forall|j: int| 0 <= j < i ==> (#[trigger] self.dag()[j].reference) != r,
            decreases n - i,
        {
            let b = &self.blocks[i];
            let br = b.reference();
            if br.authority == r.authority && br.round == r.round && br.digest == r.digest {
                assert(self.dag()[i as int].reference == r);
                return Some(i);
            }
            i = i + 1;
        }
        None
    }

    /// Whether the reference names an admitted block.
    pub fn block_exists(&self, r: BlockReference) -> (present: bool)
        ensures
            present == contains_ref(self.dag(), r),
    {
        match self.find_index(r) {
            Some(i) => {
                proof {
                    assert(contains_ref(self.dag(), r));
                }
                true
            },
            None => false,
        }
    }

    /// The block named by `r`, when admitted.
    pub fn get_block(&self, r: BlockReference) -> (res: Option<&StatementBlock>)
        requires
            self.inv(),
        ensures
            match res {
                Some(b) => contains_ref(self.dag(), r) && b@ == block_of(self.dag(), r),
                None => !contains_ref(self.dag(), r),
            },
    {
        match self.find_index(r) {
            Some(i) => {
                proof {
                    lemma_block_of_index(self.dag(), i as int);
                }
                Some(&self.blocks[i])
            },
            None => None,
        }
    }

    /// The number of admitted blocks (walks the whole index).
    pub fn len_expensive(&self) -> (n: usize)
        ensures
            n == self.dag().len(),
    {
        self.blocks.len()
    }

    /// The maximum round over all admitted blocks; bounds how far a commit
    /// search must look.
    pub fn highest_round(&self) -> (r: RoundNumber)
        requires
            self.inv(),
        ensures
            r == highest_round_spec(self.dag()),
            r <= MAX_ROUND,
    {
        proof {
            lemma_highest_round_bounds(self.dag());
        }
        self.highest_round
    }

    /// Admit a block. The caller (the completion engine) guarantees that the
    /// block is new, round-monotone, and that every predecessor is already
    /// present; a violation would be a programming error, so it is excluded
    /// by precondition rather than handled.
    pub fn insert_block(&mut self, block: StatementBlock)
        requires
            old(self).inv(),
            block_well_formed(block@),
            block@.reference.round <= MAX_ROUND,
            !contains_ref(old(self).dag(), block@.reference),
            forall|k: int|
                0 <= k < block@.includes.len()
                    ==> contains_ref(old(self).dag(), #[trigger] block@.includes[k]),
        ensures
            final(self).inv(),
            final(self).dag() =~= old(self).dag().push(block@),
    {
        let ghost dag = self.dag();
        let ghost b = block@;
        let round = block.round();
        if round > self.highest_round {
            self.highest_round = round;
        }
        self.blocks.push(block);
        proof {
            assert(self.dag() =~= dag.push(b));
            lemma_highest_round_push(dag, b);
            assert forall|i: int, k: int|
                0 <= i < dag.push(b).len() && 0 <= k < dag.push(b)[i].includes.len()
                    implies contains_ref(dag.push(b), #[trigger] dag.push(b)[i].includes[k]) by {
                if i < dag.len() {
                    assert(dag.push(b)[i] == dag[i]);
                    lemma_contains_ref_push(dag, b, dag[i].includes[k]);
                } else {
                    assert(dag.push(b)[i] == b);
                    lemma_contains_ref_push(dag, b, b.includes[k]);
                }
            }
        }
    }

    /// All admitted blocks at `round`, in insertion order.
    pub fn get_blocks_by_round(&self, round: RoundNumber) -> (res: Vec<StatementBlock>)
        ensures
            res.deep_view() =~= blocks_at_round_spec(self.dag(), round),
    {
        let n = self.blocks.len();
        let mut res: Vec<StatementBlock> = Vec::new();
        let mut i: usize = 0;
        while i < n
            invariant
                n == self.dag().len(),
                i <= n,
                res.deep_view() =~= blocks_at_round_spec(self.dag().take(i as int), round),
            decreases n - i,
        {
            proof {
                assert(self.dag().take(i + 1).drop_last() =~= self.dag().take(i as int));
                assert(self.dag().take(i + 1).last() == self.dag()[i as int]);
            }
            let b = &self.blocks[i];
            if b.round() == round {
                res.push(b.duplicate());
            }
            i = i + 1;
        }
        proof {
            assert(self.dag().take(n as int) =~= self.dag());
        }
        res
    }

    /// Whether `earlier` lies in the causal history of `later`: graph
    /// reachability along include-edges. Used both for vote counting and for
    /// the indirect decision rule.
    ///
    /// Walks the rounds downward, keeping every reference already known to be
    /// reachable and expanding the inclusions of each reached block of the
    /// round at hand.
    pub fn linked(&self, later: &StatementBlock, earlier: &StatementBlock) -> (res: bool)
        requires
            self.inv(),
            contains_ref(self.dag(), later@.reference),
            contains_ref(self.dag(), earlier@.reference),
        ensures
            res == linked_spec(self.dag(), later@.reference, earlier@.reference),
    {
        let ghost dag = self.dag();
        let from = later.reference();
        let to = earlier.reference();
        if from.authority == to.authority && from.round == to.round && from.digest == to.digest {
            return true;
        }
        assert(from != to);
        if to.round >= from.round {
            proof {
                if linked_spec(dag, from, to) {
                    lemma_reaches_round(dag, from, to, from.round as nat);
                }
            }
            return false;
        }
        let mut reached: Vec<BlockReference> = Vec::new();
        reached.push(from);
        let mut r: RoundNumber = from.round;
        proof {
            assert(reached@[0] == from);
            assert(reached@.contains(from));
            assert forall|x: BlockReference| linked_spec(dag, from, x) && x.round >= r
                implies reached@.contains(x) by {
                lemma_reaches_round(dag, from, x, from.round as nat);
                assert(x == from);
            }
            assert forall|jj: int, k: int|
                0 <= jj < dag.len() && (#[trigger] dag[jj].reference).round > r
                    && linked_spec(dag, from, dag[jj].reference) && 0 <= k < dag[jj].includes.len()
                    implies reached@.contains(#[trigger] dag[jj].includes[k]) by {
                lemma_reaches_round(dag, from, dag[jj].reference, from.round as nat);
            }
        }
        while r > to.round
            invariant
                self.inv(),
                dag == self.dag(),
                contains_ref(dag, from),
                to.round <= r <= from.round,
                // everything reached is genuinely in the causal history
                forall|i: int|
                    0 <= i < reached@.len() ==> linked_spec(dag, from, #[trigger] reached@[i]),
                // everything of the causal history down to round r is reached
                forall|x: BlockReference|
                    linked_spec(dag, from, x) && x.round >= r ==> reached@.contains(x),
                // every reachable block of a processed round has been expanded
                forall|jj: int, k: int|
                    0 <= jj < dag.len() && (#[trigger] dag[jj].reference).round > r
                        && linked_spec(dag, from, dag[jj].reference)
                        && 0 <= k < dag[jj].includes.len()
                        ==> reached@.contains(#[trigger] dag[jj].includes[k]),
            decreases r - to.round,
        {
            let ghost reach0 = reached@;
            let n = self.blocks.len();
            let mut j: usize = 0;
            while j < n
                invariant
                    self.inv(),
                    dag == self.dag(),
                    n == dag.len(),
                    j <= n,
                    contains_ref(dag, from),
                    to.round < r <= from.round,
                    reach0.len() <= reached@.len(),
                    forall|i: int| 0 <= i < reach0.len() ==> (#[trigger] reached@[i]) == reach0[i],
                    forall|i: int|
                        reach0.len() <= i < reached@.len() ==> (#[trigger] reached@[i]).round < r,
                    forall|i: int|
                        0 <= i < reached@.len() ==> linked_spec(dag, from, #[trigger] reached@[i]),
                    forall|x: BlockReference|
                        linked_spec(dag, from, x) && x.round >= r ==> reach0.contains(x),
                    forall|jj: int, k: int|
                        0 <= jj < dag.len() && (#[trigger] dag[jj].reference).round > r
                            && linked_spec(dag, from, dag[jj].reference)
                            && 0 <= k < dag[jj].includes.len()
                            ==> reached@.contains(#[trigger] dag[jj].includes[k]),
                    forall|jj: int, k: int|
                        0 <= jj < j && (#[trigger] dag[jj].reference).round == r
                            && linked_spec(dag, from, dag[jj].reference)
                            && 0 <= k < dag[jj].includes.len()
                            ==> reached@.contains(#[trigger] dag[jj].includes[k]),
                decreases n - j,
            {
                let blk = &self.blocks[j];
                proof {
                    assert(blk@ == dag[j as int]);
                }
                let at_round = blk.round() == r;
                let is_member = at_round && ref_list_contains(&reached, blk.reference());
                if is_member {
                    proof {
                        lemma_block_of_index(dag, j as int);
                        let i = choose|i: int|
                            0 <= i < reached@.len() && reached@[i] == dag[j as int].reference;
                        assert(linked_spec(dag, from, dag[j as int].reference));
                    }
                    let incs = blk.includes();
                    let m = incs.len();
                    let mut k: usize = 0;
                    while k < m
                        invariant
                            self.inv(),
                            dag == self.dag(),
                            n == dag.len(),
                            0 <= (j as int) < n,
                            m == dag[j as int].includes.len(),
                            k <= m,
                            incs@ == dag[j as int].includes,
                            to.round < r <= from.round,
                            dag[j as int].reference.round == r,
                            contains_ref(dag, from),
                            contains_ref(dag, dag[j as int].reference),
                            block_of(dag, dag[j as int].reference) == dag[j as int],
                            linked_spec(dag, from, dag[j as int].reference),
                            reach0.len() <= reached@.len(),
                            forall|i: int|
                                0 <= i < reach0.len() ==> (#[trigger] reached@[i]) == reach0[i],
                            forall|i: int|
                                reach0.len() <= i < reached@.len()
                                    ==> (#[trigger] reached@[i]).round < r,
                            forall|i: int|
                                0 <= i < reached@.len()
                                    ==> linked_spec(dag, from, #[trigger] reached@[i]),
                            forall|jj: int, kk: int|
                                0 <= jj < dag.len() && (#[trigger] dag[jj].reference).round > r
                                    && linked_spec(dag, from, dag[jj].reference)
                                    && 0 <= kk < dag[jj].includes.len()
                                    ==> reached@.contains(#[trigger] dag[jj].includes[kk]),
                            forall|jj: int, kk: int|
                                0 <= jj < j && (#[trigger] dag[jj].reference).round == r
                                    && linked_spec(dag, from, dag[jj].reference)
                                    && 0 <= kk < dag[jj].includes.len()
                                    ==> reached@.contains(#[trigger] dag[jj].includes[kk]),
                            forall|kk: int|
                                0 <= kk < k ==> reached@.contains(#[trigger] dag[j as int].includes[kk]),
                        decreases m - k,
                    {
                        let ghost pre = reached@;
                        let inc = incs[k];
                        reached.push(inc);
                        proof {
                            assert(reached@ == pre.push(inc));
                            assert(reached@[pre.len() as int] == dag[j as int].includes[k as int]);
                            assert(block_well_formed(dag[j as int]));
                            lemma_linked_step(dag, dag[j as int].reference, k as int);
                            lemma_linked_trans(
                                dag,
                                from,
                                dag[j as int].reference,
                                dag[j as int].includes[k as int],
                            );
                            assert forall|jj: int, kk: int|
                                0 <= jj < dag.len() && (#[trigger] dag[jj].reference).round > r
                                    && linked_spec(dag, from, dag[jj].reference)
                                    && 0 <= kk < dag[jj].includes.len()
                                    implies reached@.contains(#[trigger] dag[jj].includes[kk]) by {
                                assert(pre.contains(dag[jj].includes[kk]));
                                let i = choose|i: int|
                                    0 <= i < pre.len() && pre[i] == dag[jj].includes[kk];
                                assert(reached@[i] == dag[jj].includes[kk]);
                            }
                            assert forall|jj: int, kk: int|
                                0 <= jj < j && (#[trigger] dag[jj].reference).round == r
                                    && linked_spec(dag, from, dag[jj].reference)
                                    && 0 <= kk < dag[jj].includes.len()
                                    implies reached@.contains(#[trigger] dag[jj].includes[kk]) by {
                                assert(pre.contains(dag[jj].includes[kk]));
                                let i = choose|i: int|
                                    0 <= i < pre.len() && pre[i] == dag[jj].includes[kk];
                                assert(reached@[i] == dag[jj].includes[kk]);
                            }
                            assert forall|kk: int| 0 <= kk < k + 1 implies reached@.contains(
                                #[trigger] dag[j as int].includes[kk],
                            ) by {
                                if kk < k {
                                    assert(pre.contains(dag[j as int].includes[kk]));
                                    let i = choose|i: int|
                                        0 <= i < pre.len() && pre[i] == dag[j as int].includes[kk];
                                    assert(reached@[i] == dag[j as int].includes[kk]);
                                } else {
                                    assert(reached@[pre.len() as int] == dag[j as int].includes[kk]);
                                }
                            }
                        }
                        k = k + 1;
                    }
                    proof {
                        assert forall|jj: int, kk: int|
                            0 <= jj <= j && (#[trigger] dag[jj].reference).round == r
                                && linked_spec(dag, from, dag[jj].reference)
                                && 0 <= kk < dag[jj].includes.len()
                                implies reached@.contains(#[trigger] dag[jj].includes[kk]) by {
                        }
                    }
                } else {
                    proof {
                        assert forall|jj: int, kk: int|
                            0 <= jj <= j && (#[trigger] dag[jj].reference).round == r
                                && linked_spec(dag, from, dag[jj].reference)
                                && 0 <= kk < dag[jj].includes.len()
                                implies reached@.contains(#[trigger] dag[jj].includes[kk]) by {
                            if jj == j {
                                assert(at_round);
                                assert(reach0.contains(dag[jj].reference));
                                let i = choose|i: int|
                                    0 <= i < reach0.len() && reach0[i] == dag[jj].reference;
                                assert(reached@[i] == dag[jj].reference);
                                assert(reached@.contains(dag[jj].reference));
                                assert(false);
                            }
                        }
                    }
                }
                j = j + 1;
            }
            proof {
                assert forall|x: BlockReference|
                    linked_spec(dag, from, x) && x.round >= r - 1 implies reached@.contains(x) by {
                    if x.round >= r {
                        assert(reach0.contains(x));
                        let i = choose|i: int| 0 <= i < reach0.len() && reach0[i] == x;
                        assert(reached@[i] == x);
                    } else {
                        lemma_reaches_round(dag, from, x, from.round as nat);
                        assert(x != from);
                        lemma_reaches_last_edge(dag, from, x);
                        let p = choose|p: BlockReference|
                            #![auto]
                            contains_ref(dag, p) && linked_spec(dag, from, p) && block_of(
                                dag,
                                p,
                            ).includes.contains(x);
                        let jj = index_of(dag, p);
                        assert(0 <= jj < dag.len() && dag[jj].reference == p);
                        lemma_block_of_index(dag, jj);
                        let kk = choose|kk: int|
                            0 <= kk < dag[jj].includes.len() && dag[jj].includes[kk] == x;
                        assert(block_well_formed(dag[jj]));
                        assert(x.round < p.round);
                        assert(p.round >= r);
                        assert(reached@.contains(dag[jj].includes[kk]));
                    }
                }
                assert forall|jj: int, k: int|
                    0 <= jj < dag.len() && (#[trigger] dag[jj].reference).round > r - 1
                        && linked_spec(dag, from, dag[jj].reference)
                        && 0 <= k < dag[jj].includes.len()
                        implies reached@.contains(#[trigger] dag[jj].includes[k]) by {
                }
            }
            r = r - 1;
        }
        let res = ref_list_contains(&reached, to);
        proof {
            if res {
                let i = choose|i: int| 0 <= i < reached@.len() && reached@[i] == to;
                assert(linked_spec(dag, from, reached@[i]));
            }
            if linked_spec(dag, from, to) {
                assert(reached@.contains(to));
            }
        }
        res
    }


    /// All admitted blocks authored by `authority` at `round` (normally one;
    /// several only under equivocation).
    pub fn get_blocks_at_authority_round(
        &self,
        authority: u64,
        round: RoundNumber,
    ) -> (res: Vec<StatementBlock>)
        ensures
            res.deep_view() =~= blocks_at_authority_round_spec(self.dag(), authority, round),
    {
        let n = self.blocks.len();
        let mut res: Vec<StatementBlock> = Vec::new();
        let mut i: usize = 0;
        while i < n
            invariant
                n == self.dag().len(),
                i <= n,
                res.deep_view() =~= blocks_at_authority_round_spec(
                    self.dag().take(i as int),
                    authority,
                    round,
                ),
            decreases n - i,
        {
            proof {
                assert(self.dag().take(i + 1).drop_last() =~= self.dag().take(i as int));
                assert(self.dag().take(i + 1).last() == self.dag()[i as int]);
            }
            let b = &self.blocks[i];
            if b.round() == round && b.author() == authority {
                res.push(b.duplicate());
            }
            i = i + 1;
        }
        proof {
            assert(self.dag().take(n as int) =~= self.dag());
        }
        res
    }
}

} // verus!
