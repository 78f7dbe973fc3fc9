use vstd::prelude::*;
use crate::block_manager::BlockManager;
use crate::block_store::{
    contains_ref, dag_well_formed, fully_connected_dag, has_block_at, highest_round_spec,
    lemma_highest_round_bounds, BlockStore, MAX_ROUND,
};
use crate::committee::{Committee, MAX_COMMITTEE_SIZE};
use crate::types::{AuthorityIndex, BlockReference, BlockView, RoundNumber, StatementBlock};

verus! {

/// A committee of `size` equally weighted authorities.
pub fn committee(size: u64) -> (c: Committee)
    requires
        1 <= size <= MAX_COMMITTEE_SIZE,
    ensures
        c.len_spec() == size,
{
    Committee::new(size)
}

/// Feeds hand-built blocks into a store through the completion engine, for
/// setting up DAGs of any shape.
pub struct TestBlockWriter {
    block_manager: BlockManager,
}

impl TestBlockWriter {
    pub closed spec fn manager_spec(self) -> BlockManager {
        self.block_manager
    }

    /// The admitted blocks.
    pub open spec fn dag(self) -> Seq<BlockView> {
        self.manager_spec().dag()
    }

    /// The buffered blocks, still waiting for predecessors.
    pub open spec fn pending(self) -> Seq<BlockView> {
        self.manager_spec().pending_spec()
    }

    pub open spec fn valid(self) -> bool {
        self.manager_spec().inv()
    }

    /// A writer over an empty store.
    pub fn new(_committee: &Committee) -> (writer: TestBlockWriter)
        ensures
            writer.valid(),
            writer.dag() =~= Seq::<BlockView>::empty(),
            writer.pending() =~= Seq::<BlockView>::empty(),
    {
        TestBlockWriter { block_manager: BlockManager::new() }
    }

    /// Feed blocks; anything whose predecessors are present is admitted.
    pub fn add_blocks(&mut self, blocks: Vec<StatementBlock>)
        requires
            old(self).valid(),
            forall|i: int|
                0 <= i < blocks.deep_view().len() ==> crate::types::block_well_formed(
                    #[trigger] blocks.deep_view()[i],
                ),
            forall|i: int|
                0 <= i < blocks.deep_view().len()
                    ==> (#[trigger] blocks.deep_view()[i]).reference.round <= MAX_ROUND,
        ensures
            final(self).valid(),
    {
        let _ = self.block_manager.add_blocks(blocks);
    }

    /// Feed a single block. A fresh block whose predecessors are all
    /// admitted, fed to a writer with an empty buffer, lands in the store
    /// at once and leaves the buffer empty.
    pub fn add_block(&mut self, block: StatementBlock)
        requires
            old(self).valid(),
            crate::types::block_well_formed(block@),
            block@.reference.round <= MAX_ROUND,
        ensures
            final(self).valid(),
            dag_well_formed(final(self).dag()),
            (old(self).pending().len() == 0 && !contains_ref(old(self).dag(), block@.reference)
                && (forall|k: int|
                0 <= k < block@.includes.len() ==> contains_ref(
                    old(self).dag(),
                    #[trigger] block@.includes[k],
                ))) ==> final(self).dag() =~= old(self).dag().push(block@)
                && final(self).pending().len() == 0,
    {
        let ghost bv = block@;
        let ghost dag0 = self.block_manager.dag();
        let ghost pend0 = self.block_manager.pending_spec();
        let mut blocks: Vec<StatementBlock> = Vec::new();
        blocks.push(block);
        let ghost input = blocks.deep_view();
        proof {
            assert(input =~= seq![bv]);
        }
        let admitted = self.block_manager.add_blocks(blocks);
        proof {
            let adm = admitted.deep_view();
            let dag1 = self.block_manager.dag();
            let pend1 = self.block_manager.pending_spec();
            if pend0.len() == 0 && !contains_ref(dag0, bv.reference) && (forall|k: int|
                0 <= k < bv.includes.len() ==> contains_ref(dag0, #[trigger] bv.includes[k])) {
                // whatever was admitted or stayed buffered is this block
                assert forall|j: int| 0 <= j < adm.len() implies (#[trigger] adm[j]) == bv by {
                    assert(input.contains(adm[j]));
                }
                assert forall|j: int| 0 <= j < pend1.len() implies (#[trigger] pend1[j]) == bv by {
                    assert(input.contains(pend1[j]));
                }
                // the block cannot be buffered: its predecessors are all in
                // the store already
                if pend1.len() > 0 {
                    assert(pend1[0] == bv);
                    assert(self.block_manager.pending_blocked_at(0));
                    let k = choose|k: int|
                        0 <= k < pend1[0].includes.len() && !contains_ref(
                            dag1,
                            #[trigger] pend1[0].includes[k],
                        );
                    assert(contains_ref(dag0, bv.includes[k]));
                    let idx = choose|idx: int|
                        0 <= idx < dag0.len() && (#[trigger] dag0[idx].reference) == bv.includes[k];
                    assert(dag1[idx].reference == bv.includes[k]);
                    assert(false);
                }
                assert(pend1.len() == 0);
                // it is admitted exactly once
                assert(input[0] == bv);
                assert(contains_ref(dag1, (input[0]).reference) || crate::block_manager::views_contain_ref(
                    pend1,
                    input[0].reference,
                ));
                assert(!crate::block_manager::views_contain_ref(pend1, bv.reference));
                assert(contains_ref(dag1, bv.reference));
                if adm.len() == 0 {
                    assert(dag1 =~= dag0);
                    assert(false);
                }
                if adm.len() >= 2 {
                    assert(dag1[dag0.len() as int].reference == bv.reference);
                    assert(dag1[dag0.len() as int + 1].reference == bv.reference);
                    assert(false);
                }
                assert(adm.len() == 1);
                assert(dag1 =~= dag0.push(bv));
            }
        }
    }

    /// Hand the underlying store over to a committer.
    pub fn into_block_store(self) -> (store: BlockStore)
        requires
            self.valid(),
        ensures
            store.inv(),
            store.dag() == self.dag(),
    {
        let TestBlockWriter { block_manager } = self;
        block_manager.into_block_store()
    }
}

/// The largest round among the given references.
fn max_ref_round(refs: &Vec<BlockReference>) -> (m: RoundNumber)
    requires
        refs@.len() > 0,
    ensures
        forall|i: int| 0 <= i < refs@.len() ==> (#[trigger] refs@[i]).round <= m,
        exists|i: int| 0 <= i < refs@.len() && (#[trigger] refs@[i]).round == m,
{
    let n = refs.len();
    let mut m: RoundNumber = refs[0].round;
    let mut i: usize = 1;
    while i < n
        invariant
            1 <= i <= n,
            n == refs@.len(),
            forall|j: int| 0 <= j < i ==> (#[trigger] refs@[j]).round <= m,
            exists|j: int| 0 <= j < i && (#[trigger] refs@[j]).round == m,
        decreases n - i,
    {
        if refs[i].round > m {
            m = refs[i].round;
        }
        i = i + 1;
    }
    m
}

/// An owned copy of a reference list.
fn copy_refs(refs: &Vec<BlockReference>) -> (copy: Vec<BlockReference>)
    ensures
        copy@ == refs@,
{
    let n = refs.len();
    let mut copy: Vec<BlockReference> = Vec::new();
    let mut i: usize = 0;
    while i < n
        invariant
            i <= n,
            n == refs@.len(),
            copy@ =~= refs@.take(i as int),
        decreases n - i,
    {
        copy.push(refs[i]);
        i = i + 1;
    }
    proof {
        assert(refs@.take(n as int) =~= refs@);
    }
    copy
}

/// Build a fully connected DAG: starting from the genesis blocks (or from
/// `start`), every round up to and including `stop` holds one block per
/// authority including all the blocks of the layer below. Returns the
/// references of the last layer; a `start` already at or past `stop` is
/// returned unchanged.
///
/// Started from the genesis blocks on an empty writer, the writer is left
/// holding exactly a fully connected DAG up to round `stop`, with nothing
/// buffered.
pub fn build_dag(
    committee: &Committee,
    block_writer: &mut TestBlockWriter,
    start: Option<Vec<BlockReference>>,
    stop: RoundNumber,
) -> (refs: Vec<BlockReference>)
    requires
        old(block_writer).valid(),
        stop <= MAX_ROUND,
        start matches Some(v) ==> v@.len() > 0,
        start matches Some(v) ==> forall|i: int|
            0 <= i < v@.len() ==> (#[trigger] v@[i]).round <= MAX_ROUND,
    ensures
        final(block_writer).valid(),
        forall|i: int| 0 <= i < refs@.len() ==> (#[trigger] refs@[i]).round <= MAX_ROUND,
        (start is None && old(block_writer).dag().len() == 0 && old(block_writer).pending().len()
            == 0) ==> {
            &&& fully_connected_dag(final(block_writer).dag(), committee.len_spec(), stop as int)
            &&& dag_well_formed(final(block_writer).dag())
            &&& highest_round_spec(final(block_writer).dag()) == stop
            &&& final(block_writer).pending().len() == 0
        },
{
    let ghost from_genesis = start is None && old(block_writer).dag().len() == 0 && old(
        block_writer,
    ).pending().len() == 0;
    let n = committee.len();
    let mut refs: Vec<BlockReference>;
    let mut next_round: RoundNumber;
    match start {
        Some(start_refs) => {
            let m = max_ref_round(&start_refs);
            if m >= stop {
                return start_refs;
            }
            next_round = m + 1;
            refs = start_refs;
        },
        None => {
            // Write the genesis layer.
            let mut genesis_refs: Vec<BlockReference> = Vec::new();
            let mut a: u64 = 0;
            proof {
                if from_genesis {
                    assert(dag_well_formed(block_writer.dag()));
                }
            }
            while a < n
                invariant
                    a <= n,
                    n == committee.len_spec(),
                    block_writer.valid(),
                    forall|i: int|
                        0 <= i < genesis_refs@.len() ==> (#[trigger] genesis_refs@[i]).round == 0,
                    genesis_refs@.len() == a,
                    forall|i: int|
                        0 <= i < genesis_refs@.len() ==> (#[trigger] genesis_refs@[i])
                            == (BlockReference { authority: i as AuthorityIndex, round: 0, digest: 0 }),
                    from_genesis ==> {
                        &&& block_writer.pending().len() == 0
                        &&& dag_well_formed(block_writer.dag())
                        &&& block_writer.dag().len() == a
                        &&& forall|j: int|
                            0 <= j < block_writer.dag().len()
                                ==> (#[trigger] block_writer.dag()[j]).reference == (BlockReference {
                                authority: j as AuthorityIndex,
                                round: 0,
                                digest: 0,
                            })
                    },
                decreases n - a,
            {
                let ghost dag_pre = block_writer.dag();
                let block = StatementBlock::new_genesis(a);
                genesis_refs.push(block.reference());
                proof {
                    if from_genesis {
                        assert(!contains_ref(dag_pre, block@.reference)) by {
                            if contains_ref(dag_pre, block@.reference) {
                                let j = choose|j: int|
                                    0 <= j < dag_pre.len() && (#[trigger] dag_pre[j].reference)
                                        == block@.reference;
                                assert(dag_pre[j].reference.authority == j);
                                assert(false);
                            }
                        }
                    }
                }
                block_writer.add_block(block);
                a = a + 1;
            }
            next_round = 1;
            refs = genesis_refs;
        },
    }
    proof {
        if from_genesis {
            assert(fully_connected_dag(block_writer.dag(), n as int, next_round - 1)) by {
                assert forall|aa: AuthorityIndex, r: RoundNumber|
                    0 <= aa < n && 0 <= r <= next_round - 1 implies #[trigger] has_block_at(
                    block_writer.dag(),
                    aa,
                    r,
                ) by {
                    assert(block_writer.dag()[aa as int].reference == (BlockReference {
                        authority: aa,
                        round: 0,
                        digest: 0,
                    }));
                }
            }
        }
    }
    let mut round = next_round;
    while round <= stop
        invariant
            block_writer.valid(),
            1 <= round,
            stop <= MAX_ROUND,
            n == committee.len_spec(),
            forall|i: int| 0 <= i < refs@.len() ==> (#[trigger] refs@[i]).round < round,
            forall|i: int| 0 <= i < refs@.len() ==> (#[trigger] refs@[i]).round <= MAX_ROUND,
            from_genesis ==> {
                &&& round <= stop + 1
                &&& block_writer.pending().len() == 0
                &&& dag_well_formed(block_writer.dag())
                &&& fully_connected_dag(block_writer.dag(), n as int, round - 1)
                &&& forall|j: int|
                    0 <= j < block_writer.dag().len()
                        ==> (#[trigger] block_writer.dag()[j]).reference.authority < n
                            && block_writer.dag()[j].reference.digest == 0
                &&& refs@.len() == n
                &&& forall|i: int|
                    0 <= i < refs@.len() ==> (#[trigger] refs@[i]) == (BlockReference {
                        authority: i as AuthorityIndex,
                        round: (round - 1) as RoundNumber,
                        digest: 0,
                    })
            },
        decreases stop + 1 - round,
    {
        let mut layer_refs: Vec<BlockReference> = Vec::new();
        let mut a: u64 = 0;
        while a < n
            invariant
                a <= n,
                block_writer.valid(),
                1 <= round <= stop <= MAX_ROUND,
                n == committee.len_spec(),
                forall|i: int| 0 <= i < refs@.len() ==> (#[trigger] refs@[i]).round < round,
                layer_refs@.len() == a,
                forall|i: int|
                    0 <= i < layer_refs@.len() ==> (#[trigger] layer_refs@[i]) == (BlockReference {
                        authority: i as AuthorityIndex,
                        round,
                        digest: 0,
                    }),
                from_genesis ==> {
                    &&& block_writer.pending().len() == 0
                    &&& dag_well_formed(block_writer.dag())
                    &&& refs@.len() == n
                    &&& forall|i: int|
                        0 <= i < refs@.len() ==> (#[trigger] refs@[i]) == (BlockReference {
                            authority: i as AuthorityIndex,
                            round: (round - 1) as RoundNumber,
                            digest: 0,
                        })
                    // layers below are complete
                    &&& forall|aa: AuthorityIndex, r: RoundNumber|
                        0 <= aa < n && 0 <= r <= round - 1 ==> #[trigger] has_block_at(
                            block_writer.dag(),
                            aa,
                            r,
                        )
                    // the layer at hand holds the authorities below `a`
                    &&& forall|aa: AuthorityIndex|
                        0 <= aa < a ==> #[trigger] has_block_at(block_writer.dag(), aa, round)
                    // every block is shaped as built
                    &&& forall|j: int|
                        0 <= j < block_writer.dag().len()
                            ==> (#[trigger] block_writer.dag()[j]).reference.round <= round
                                && block_writer.dag()[j].reference.authority < n
                                && block_writer.dag()[j].reference.digest == 0
                    &&& forall|j: int|
                        0 <= j < block_writer.dag().len() && (#[trigger] block_writer.dag()[j]).reference.round
                            == round ==> block_writer.dag()[j].reference.authority < a
                            && block_writer.dag()[j].includes == refs@
                    // every block includes the whole layer below it
                    &&& forall|i: int, j: int|
                        0 <= i < block_writer.dag().len() && 0 <= j < block_writer.dag().len()
                            && block_writer.dag()[i].reference.round >= 1
                            && block_writer.dag()[j].reference.round == block_writer.dag()[i].reference.round
                            - 1 ==> (#[trigger] block_writer.dag()[i]).includes.contains(
                            (#[trigger] block_writer.dag()[j]).reference,
                        )
                },
            decreases n - a,
        {
            let ghost dag_pre = block_writer.dag();
            let reference = BlockReference { authority: a, round, digest: 0 };
            let includes = copy_refs(&refs);
            let block = StatementBlock::new(reference, includes);
            layer_refs.push(block.reference());
            proof {
                if from_genesis {
                    assert(!contains_ref(dag_pre, reference)) by {
                        if contains_ref(dag_pre, reference) {
                            let j = choose|j: int|
                                0 <= j < dag_pre.len() && (#[trigger] dag_pre[j].reference)
                                    == reference;
                            assert(dag_pre[j].reference.round == round);
                            assert(dag_pre[j].reference.authority < a);
                            assert(false);
                        }
                    }
                    assert forall|k: int|
                        0 <= k < block@.includes.len() implies contains_ref(
                        dag_pre,
                        #[trigger] block@.includes[k],
                    ) by {
                        assert(block@.includes[k] == refs@[k]);
                        assert(has_block_at(dag_pre, k as AuthorityIndex, (round - 1) as RoundNumber));
                        let j = choose|j: int|
                            0 <= j < dag_pre.len() && (#[trigger] dag_pre[j].reference).authority
                                == k as AuthorityIndex && dag_pre[j].reference.round == round - 1;
                        assert(dag_pre[j].reference == refs@[k]);
                    }
                }
            }
            block_writer.add_block(block);
            proof {
                if from_genesis {
                    let dag_post = block_writer.dag();
                    assert(dag_post =~= dag_pre.push(block@));
                    assert forall|aa: AuthorityIndex, r: RoundNumber|
                        0 <= aa < n && 0 <= r <= round - 1 implies #[trigger] has_block_at(
                        dag_post,
                        aa,
                        r,
                    ) by {
                        assert(has_block_at(dag_pre, aa, r));
                        let j = choose|j: int|
                            0 <= j < dag_pre.len() && (#[trigger] dag_pre[j].reference).authority
                                == aa && dag_pre[j].reference.round == r;
                        assert(dag_post[j].reference.authority == aa && dag_post[j].reference.round
                            == r);
                    }
                    assert forall|aa: AuthorityIndex|
                        0 <= aa < a + 1 implies #[trigger] has_block_at(dag_post, aa, round) by {
                        if aa < a {
                            assert(has_block_at(dag_pre, aa, round));
                            let j = choose|j: int|
                                0 <= j < dag_pre.len() && (#[trigger] dag_pre[j].reference).authority
                                    == aa && dag_pre[j].reference.round == round;
                            assert(dag_post[j].reference.authority == aa
                                && dag_post[j].reference.round == round);
                        } else {
                            assert(dag_post[dag_pre.len() as int].reference.authority == aa
                                && dag_post[dag_pre.len() as int].reference.round == round);
                        }
                    }
                    assert forall|i: int, j: int|
                        0 <= i < dag_post.len() && 0 <= j < dag_post.len()
                            && dag_post[i].reference.round >= 1 && dag_post[j].reference.round
                            == dag_post[i].reference.round - 1 implies (#[trigger] dag_post[i]).includes.contains(
                        (#[trigger] dag_post[j]).reference,
                    ) by {
                        if i == dag_pre.len() || j == dag_pre.len() {
                            if i == dag_pre.len() {
                                // the new block includes the whole previous
                                // layer, which its counterpart sits in
                                assert(dag_post[j].reference.round == round - 1);
                                let aa = dag_post[j].reference.authority;
                                assert(dag_post[j].reference == refs@[aa as int]);
                                assert(dag_post[i].includes[aa as int] == dag_post[j].reference);
                            } else {
                                // nothing sits one round above the new block
                                assert(dag_post[i].reference.round <= round);
                                assert(false);
                            }
                        } else {
                            assert(dag_pre[i].includes.contains(dag_pre[j].reference));
                        }
                    }
                }
            }
            a = a + 1;
        }
        proof {
            if from_genesis {
                assert(fully_connected_dag(block_writer.dag(), n as int, round as int)) by {
                    assert forall|aa: AuthorityIndex, r: RoundNumber|
                        0 <= aa < n && 0 <= r <= round implies #[trigger] has_block_at(
                        block_writer.dag(),
                        aa,
                        r,
                    ) by {
                    }
                }
            }
        }
        refs = layer_refs;
        round = round + 1;
    }
    proof {
        if from_genesis {
            let dag = block_writer.dag();
            lemma_highest_round_bounds(dag);
            assert(has_block_at(dag, 0, stop));
            let j = choose|j: int|
                0 <= j < dag.len() && (#[trigger] dag[j].reference).authority == 0
                    && dag[j].reference.round == stop;
            assert(highest_round_spec(dag) >= stop);
            let h = choose|i: int|
                0 <= i < dag.len() && (#[trigger] dag[i].reference).round == highest_round_spec(
                    dag,
                );
            assert(dag[h].reference.round <= stop);
        }
    }
    refs
}

/// Build one DAG layer from explicit connections: for each pair, one block
/// by that authority at the round right above its references, including
/// exactly those references. Returns the references of the written blocks.
pub fn build_dag_layer(
    connections: Vec<(AuthorityIndex, Vec<BlockReference>)>,
    block_writer: &mut TestBlockWriter,
) -> (refs: Vec<BlockReference>)
    requires
        old(block_writer).valid(),
        forall|i: int| 0 <= i < connections.deep_view().len() ==> (#[trigger] connections.deep_view()[i]).1.len() > 0,
        forall|i: int, k: int|
            0 <= i < connections.deep_view().len() && 0 <= k < connections.deep_view()[i].1.len()
                ==> (#[trigger] connections.deep_view()[i].1[k]).round < MAX_ROUND,
    ensures
        final(block_writer).valid(),
{
    let m = connections.len();
    let mut refs: Vec<BlockReference> = Vec::new();
    let mut i: usize = 0;
    while i < m
        invariant
            i <= m,
            m == connections.deep_view().len(),
            block_writer.valid(),
            forall|j: int| 0 <= j < connections.deep_view().len() ==> (#[trigger] connections.deep_view()[j]).1.len() > 0,
            forall|j: int, k: int|
                0 <= j < connections.deep_view().len() && 0 <= k < connections.deep_view()[j].1.len()
                    ==> (#[trigger] connections.deep_view()[j].1[k]).round < MAX_ROUND,
        decreases m - i,
    {
        let authority = connections[i].0;
        let includes = copy_refs(&connections[i].1);
        proof {
            assert(connections.deep_view()[i as int].1 =~= connections@[i as int].1@);
        }
        let round = max_ref_round(&includes) + 1;
        let reference = BlockReference { authority, round, digest: 0 };
        let block = StatementBlock::new(reference, includes);
        refs.push(block.reference());
        block_writer.add_block(block);
        i = i + 1;
    }
    refs
}

} // verus!
