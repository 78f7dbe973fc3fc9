use vstd::prelude::*;
use crate::block_store::{contains_ref, dag_well_formed, BlockStore, MAX_ROUND};
use crate::types::{block_well_formed, BlockReference, BlockView, StatementBlock};

verus! {

/// The list of views holds a block named by `r`.
pub open spec fn views_contain_ref(blocks: Seq<BlockView>, r: BlockReference) -> bool {
    exists|i: int| 0 <= i < blocks.len() && (#[trigger] blocks[i]).reference == r
}

/// Converts an unordered, possibly out-of-causal-order stream of incoming
/// blocks into a causally consistent admission order: blocks whose
/// predecessors are not all admitted yet are buffered, and are released
/// (possibly in cascade) once the predecessors arrive.
pub struct BlockManager {
    blocks_pending: Vec<StatementBlock>,
    block_store: BlockStore,
}

impl BlockManager {
    /// The admitted blocks.
    pub closed spec fn dag(self) -> Seq<BlockView> {
        self.block_store.dag()
    }

    /// The buffered blocks, waiting for predecessors.
    pub closed spec fn pending_spec(self) -> Seq<BlockView> {
        self.blocks_pending.deep_view()
    }

    pub closed spec fn store_inv(self) -> bool {
        self.block_store.inv()
    }

    /// All of validity except the last-resort clause: a well-formed store,
    /// and buffered blocks that are well formed, pairwise distinct and not
    /// yet admitted. Holds also in the middle of an admission cascade.
    pub open spec fn weak_inv(self) -> bool {
        &&& self.store_inv()
        &&& forall|i: int|
            0 <= i < self.pending_spec().len() ==> block_well_formed(#[trigger] self.pending_spec()[i])
        &&& forall|i: int|
            0 <= i < self.pending_spec().len()
                ==> (#[trigger] self.pending_spec()[i]).reference.round <= MAX_ROUND
        &&& forall|i: int, j: int|
            0 <= i < j < self.pending_spec().len()
                ==> (#[trigger] self.pending_spec()[i]).reference != (#[trigger] self.pending_spec()[j]).reference
        &&& forall|i: int|
            0 <= i < self.pending_spec().len()
                ==> !contains_ref(self.dag(), (#[trigger] self.pending_spec()[i]).reference)
    }

    /// The buffered block at position `i` misses at least one predecessor.
    pub open spec fn pending_blocked_at(self, i: int) -> bool {
        exists|k: int|
            0 <= k < self.pending_spec()[i].includes.len() && !contains_ref(
                self.dag(),
                #[trigger] self.pending_spec()[i].includes[k],
            )
    }

    /// Every buffered block misses at least one predecessor; the cascade
    /// has released everything releasable.
    pub open spec fn all_pending_blocked(self) -> bool {
        forall|i: int| 0 <= i < self.pending_spec().len() ==> #[trigger] self.pending_blocked_at(i)
    }

    /// Validity: a well-formed store; buffered blocks that are well formed,
    /// pairwise distinct, not yet admitted, and each genuinely missing at
    /// least one predecessor (otherwise the cascade would have released
    /// them).
    pub open spec fn inv(self) -> bool {
        self.weak_inv() && self.all_pending_blocked()
    }

    /// An empty manager over an empty store.
    pub fn new() -> (manager: BlockManager)
        ensures
            manager.inv(),
            manager.dag() =~= Seq::<BlockView>::empty(),
            manager.pending_spec() =~= Seq::<BlockView>::empty(),
            dag_well_formed(manager.dag()),
    {
        let manager = BlockManager { blocks_pending: Vec::new(), block_store: BlockStore::new() };
        proof {
            assert(manager.pending_spec() =~= Seq::<BlockView>::empty());
        }
        manager
    }

    /// Managers start out empty.
    pub fn default() -> (manager: BlockManager)
        ensures
            manager.inv(),
            manager.dag() =~= Seq::<BlockView>::empty(),
            manager.pending_spec() =~= Seq::<BlockView>::empty(),
    {
        BlockManager::new()
    }

    /// The store of admitted blocks.
    pub fn block_store(&self) -> (store: &BlockStore)
        ensures
            store.dag() == self.dag(),
            self.inv() ==> store.inv(),
    {
        &self.block_store
    }

    /// How many blocks are buffered.
    pub fn pending_len(&self) -> (n: usize)
        ensures
            n == self.pending_spec().len(),
    {
        self.blocks_pending.len()
    }

    /// Whether a buffered block carries the reference `r`.
    fn pending_contains(&self, r: BlockReference) -> (present: bool)
        ensures
            present == views_contain_ref(self.pending_spec(), r),
    {
        let ghost pend = self.pending_spec();
        let n = self.blocks_pending.len();
        let mut i: usize = 0;
        while i < n
            invariant
                i <= n,
                n == pend.len(),
                pend == self.pending_spec(),
                forall|j: int| 0 <= j < i ==> (#[trigger] pend[j]).reference != r,
            decreases n - i,
        {
            let b = &self.blocks_pending[i];
            assert(b@ == pend[i as int]);
            let br = b.reference();
            if br.authority == r.authority && br.round == r.round && br.digest == r.digest {
                return true;
            }
            i = i + 1;
        }
        false
    }

    /// The position of a buffered block all of whose predecessors are
    /// admitted, if any.
    fn find_ready(&self) -> (res: Option<usize>)
        ensures
            match res {
                Some(i) => i < self.pending_spec().len() && forall|k: int|
                    0 <= k < self.pending_spec()[i as int].includes.len() ==> contains_ref(
                        self.dag(),
                        #[trigger] self.pending_spec()[i as int].includes[k],
                    ),
                None => self.all_pending_blocked(),
            },
    {
        let ghost pend = self.pending_spec();
        let n = self.blocks_pending.len();
        let mut i: usize = 0;
        while i < n
            invariant
                i <= n,
                n == pend.len(),
                pend == self.pending_spec(),
                forall|j: int| 0 <= j < i ==> #[trigger] self.pending_blocked_at(j),
            decreases n - i,
        {
            let b = &self.blocks_pending[i];
            assert(b@ == pend[i as int]);
            let incs = b.includes();
            let m = incs.len();
            let mut all_present = true;
            let ghost mut missing_k: int = 0;
            let mut k: usize = 0;
            while k < m
                invariant
                    k <= m,
                    m == pend[i as int].includes.len(),
                    incs@ == pend[i as int].includes,
                    pend == self.pending_spec(),
                    0 <= (i as int) < pend.len(),
                    all_present ==> forall|kk: int|
                        0 <= kk < k ==> contains_ref(self.dag(), #[trigger] pend[i as int].includes[kk]),
                    !all_present ==> 0 <= missing_k < m && !contains_ref(
                        self.dag(),
                        pend[i as int].includes[missing_k],
                    ),
                decreases m - k,
            {
                if all_present && !self.block_store.block_exists(incs[k]) {
                    all_present = false;
                    proof {
                        missing_k = k as int;
                    }
                }
                k = k + 1;
            }
            if all_present {
                return Some(i);
            }
            proof {
                assert(0 <= missing_k < self.pending_spec()[i as int].includes.len()
                    && !contains_ref(self.dag(), self.pending_spec()[i as int].includes[missing_k]));
                assert(self.pending_blocked_at(i as int));
            }
            i = i + 1;
        }
        None
    }

    /// Feed incoming blocks to the manager. Every block whose causal
    /// predecessors are (or become) all admitted is admitted, in cascade;
    /// the rest stay buffered. Re-delivering an admitted or buffered block
    /// is a no-op. Returns the newly admitted blocks in admission order.
    pub fn add_blocks(&mut self, blocks: Vec<StatementBlock>) -> (admitted: Vec<StatementBlock>)
        requires
            old(self).inv(),
            forall|i: int|
                0 <= i < blocks.deep_view().len() ==> block_well_formed(#[trigger] blocks.deep_view()[i]),
            forall|i: int|
                0 <= i < blocks.deep_view().len()
                    ==> (#[trigger] blocks.deep_view()[i]).reference.round <= MAX_ROUND,
        ensures
            final(self).inv(),
            dag_well_formed(final(self).dag()),
            // the store grows exactly by the returned blocks, in order
            final(self).dag() =~= old(self).dag() + admitted.deep_view(),
            // every returned or still-buffered block was handed in now or
            // was buffered before
            forall|i: int|
                0 <= i < admitted.deep_view().len()
                    ==> old(self).pending_spec().contains(#[trigger] admitted.deep_view()[i])
                        || blocks.deep_view().contains(admitted.deep_view()[i]),
            forall|i: int|
                0 <= i < final(self).pending_spec().len()
                    ==> old(self).pending_spec().contains(#[trigger] final(self).pending_spec()[i])
                        || blocks.deep_view().contains(final(self).pending_spec()[i]),
            // no block is lost: everything handed in is admitted or buffered
            forall|i: int|
                0 <= i < blocks.deep_view().len() ==> contains_ref(
                    final(self).dag(),
                    (#[trigger] blocks.deep_view()[i]).reference,
                ) || views_contain_ref(
                    final(self).pending_spec(),
                    blocks.deep_view()[i].reference,
                ),
            // and nothing buffered before is lost either
            forall|i: int|
                0 <= i < old(self).pending_spec().len() ==> contains_ref(
                    final(self).dag(),
                    (#[trigger] old(self).pending_spec()[i]).reference,
                ) || views_contain_ref(
                    final(self).pending_spec(),
                    old(self).pending_spec()[i].reference,
                ),
            // causally consistent admission order: every admitted block's
            // predecessors sit in the old store or earlier in the returned
            // sequence
            forall|j: int, k: int|
                0 <= j < admitted.deep_view().len() && 0 <= k < admitted.deep_view()[j].includes.len()
                    ==> contains_ref(
                    old(self).dag() + admitted.deep_view().take(j),
                    #[trigger] admitted.deep_view()[j].includes[k],
                ),
    {
        let ghost dag0 = self.dag();
        let ghost pend0 = self.pending_spec();
        let ghost input = blocks.deep_view();
        // Buffer every genuinely new block.
        let n = blocks.len();
        let mut i: usize = 0;
        while i < n
            invariant
                i <= n,
                n == input.len(),
                input == blocks.deep_view(),
                forall|j: int| 0 <= j < input.len() ==> block_well_formed(#[trigger] input[j]),
                forall|j: int| 0 <= j < input.len() ==> (#[trigger] input[j]).reference.round <= MAX_ROUND,
                dag0 == self.dag(),
                pend0 == old(self).pending_spec(),
                self.block_store == old(self).block_store,
                self.weak_inv(),
                forall|j: int|
                    0 <= j < self.pending_spec().len()
                        ==> pend0.contains(#[trigger] self.pending_spec()[j]) || input.contains(
                        self.pending_spec()[j],
                    ),
                forall|j: int|
                    0 <= j < i ==> contains_ref(self.dag(), (#[trigger] input[j]).reference)
                        || views_contain_ref(self.pending_spec(), input[j].reference),
                forall|j: int|
                    0 <= j < pend0.len() ==> views_contain_ref(
                        self.pending_spec(),
                        (#[trigger] pend0[j]).reference,
                    ),
            decreases n - i,
        {
            let b = &blocks[i];
            assert(b@ == input[i as int]);
            let ghost pend_pre = self.pending_spec();
            if !self.block_store.block_exists(b.reference()) && !self.pending_contains(b.reference()) {
                self.blocks_pending.push(b.duplicate());
                proof {
                    assert(self.pending_spec() =~= pend_pre.push(input[i as int]));
                    assert forall|j: int|
                        0 <= j < pend0.len() implies views_contain_ref(
                        self.pending_spec(),
                        (#[trigger] pend0[j]).reference,
                    ) by {
                        let jj = choose|jj: int|
                            0 <= jj < pend_pre.len() && (#[trigger] pend_pre[jj]).reference
                                == pend0[j].reference;
                        assert(self.pending_spec()[jj].reference == pend0[j].reference);
                    }
                    assert forall|j: int|
                        0 <= j < i + 1 implies contains_ref(self.dag(), (#[trigger] input[j]).reference)
                            || views_contain_ref(self.pending_spec(), input[j].reference) by {
                        if j < i {
                            if views_contain_ref(pend_pre, input[j].reference) {
                                let jj = choose|jj: int|
                                    0 <= jj < pend_pre.len() && (#[trigger] pend_pre[jj]).reference
                                        == input[j].reference;
                                assert(self.pending_spec()[jj].reference == input[j].reference);
                            }
                        } else {
                            assert(self.pending_spec()[pend_pre.len() as int].reference
                                == input[j].reference);
                        }
                    }
                }
            } else {
                proof {
                    assert(contains_ref(self.dag(), input[i as int].reference) || views_contain_ref(
                        self.pending_spec(),
                        input[i as int].reference,
                    ));
                }
            }
            i = i + 1;
        }
        // Release buffered blocks whose predecessors are all admitted, in
        // cascade, until none is ready.
        let mut admitted: Vec<StatementBlock> = Vec::new();
        proof {
            assert(admitted.deep_view() =~= Seq::<BlockView>::empty());
            assert(dag0 + admitted.deep_view() =~= dag0);
        }
        let mut done = false;
        while !done
            invariant
                input == blocks.deep_view(),
                pend0 == old(self).pending_spec(),
                self.weak_inv(),
                self.dag() =~= dag0 + admitted.deep_view(),
                dag0 == old(self).dag(),
                forall|j: int|
                    0 <= j < admitted.deep_view().len()
                        ==> pend0.contains(#[trigger] admitted.deep_view()[j]) || input.contains(
                        admitted.deep_view()[j],
                    ),
                forall|j: int|
                    0 <= j < self.pending_spec().len()
                        ==> pend0.contains(#[trigger] self.pending_spec()[j]) || input.contains(
                        self.pending_spec()[j],
                    ),
                forall|j: int|
                    0 <= j < input.len() ==> contains_ref(self.dag(), (#[trigger] input[j]).reference)
                        || views_contain_ref(self.pending_spec(), input[j].reference),
                forall|j: int|
                    0 <= j < pend0.len() ==> contains_ref(self.dag(), (#[trigger] pend0[j]).reference)
                        || views_contain_ref(self.pending_spec(), pend0[j].reference),
                forall|j: int, k: int|
                    0 <= j < admitted.deep_view().len() && 0 <= k < admitted.deep_view()[j].includes.len()
                        ==> contains_ref(
                        dag0 + admitted.deep_view().take(j),
                        #[trigger] admitted.deep_view()[j].includes[k],
                    ),
                done ==> self.all_pending_blocked(),
            decreases self.blocks_pending@.len() + (if done { 0int } else { 1int }),
        {
            match self.find_ready() {
                Some(idx) => {
                    let ghost pend_pre = self.pending_spec();
                    let ghost dag_pre = self.dag();
                    let ghost adm_pre = admitted.deep_view();
                    let block = self.blocks_pending.remove(idx);
                    proof {
                        assert(self.pending_spec() =~= pend_pre.remove(idx as int));
                        assert(block@ == pend_pre[idx as int]);
                        assert(block_well_formed(block@));
                        assert(!contains_ref(dag_pre, block@.reference));
                        assert forall|jj: int, kk: int|
                            0 <= jj < self.pending_spec().len()
                                && 0 <= kk < jj implies (#[trigger] self.pending_spec()[kk]).reference
                                != (#[trigger] self.pending_spec()[jj]).reference by {
                        }
                    }
                    admitted.push(block.duplicate());
                    self.block_store.insert_block(block);
                    proof {
                        assert(admitted.deep_view() =~= adm_pre.push(pend_pre[idx as int]));
                        assert(self.dag() =~= dag_pre.push(pend_pre[idx as int]));
                        assert(self.dag() =~= dag0 + admitted.deep_view());
                        assert forall|j: int|
                            0 <= j < admitted.deep_view().len() implies pend0.contains(
                            #[trigger] admitted.deep_view()[j],
                        ) || input.contains(admitted.deep_view()[j]) by {
                            if j < adm_pre.len() {
                                assert(admitted.deep_view()[j] == adm_pre[j]);
                            } else {
                                assert(admitted.deep_view()[j] == pend_pre[idx as int]);
                            }
                        }
                        assert forall|j: int|
                            0 <= j < self.pending_spec().len() implies !contains_ref(
                            self.dag(),
                            (#[trigger] self.pending_spec()[j]).reference,
                        ) by {
                            let pv = self.pending_spec()[j];
                            assert(pv == if j < idx {
                                pend_pre[j]
                            } else {
                                pend_pre[j + 1]
                            });
                            assert(pv.reference != pend_pre[idx as int].reference);
                            if contains_ref(self.dag(), pv.reference) {
                                let jj = choose|jj: int|
                                    0 <= jj < self.dag().len() && (#[trigger] self.dag()[jj]).reference
                                        == pv.reference;
                                if jj < dag_pre.len() {
                                    assert(dag_pre[jj].reference == pv.reference);
                                    assert(contains_ref(dag_pre, pv.reference));
                                }
                                assert(false);
                            }
                        }
                        assert forall|j: int|
                            0 <= j < input.len() implies contains_ref(
                            self.dag(),
                            (#[trigger] input[j]).reference,
                        ) || views_contain_ref(self.pending_spec(), input[j].reference) by {
                            if contains_ref(dag_pre, input[j].reference) {
                                crate::block_store::lemma_contains_ref_push(
                                    dag_pre,
                                    pend_pre[idx as int],
                                    input[j].reference,
                                );
                            } else {
                                let jj = choose|jj: int|
                                    0 <= jj < pend_pre.len() && (#[trigger] pend_pre[jj]).reference
                                        == input[j].reference;
                                if jj == idx {
                                    assert(self.dag()[dag_pre.len() as int].reference
                                        == input[j].reference);
                                } else if jj < idx {
                                    assert(self.pending_spec()[jj].reference == input[j].reference);
                                } else {
                                    assert(self.pending_spec()[jj - 1].reference == input[j].reference);
                                }
                            }
                        }
                        assert forall|j: int|
                            0 <= j < pend0.len() implies contains_ref(
                            self.dag(),
                            (#[trigger] pend0[j]).reference,
                        ) || views_contain_ref(self.pending_spec(), pend0[j].reference) by {
                            if contains_ref(dag_pre, pend0[j].reference) {
                                crate::block_store::lemma_contains_ref_push(
                                    dag_pre,
                                    pend_pre[idx as int],
                                    pend0[j].reference,
                                );
                            } else {
                                let jj = choose|jj: int|
                                    0 <= jj < pend_pre.len() && (#[trigger] pend_pre[jj]).reference
                                        == pend0[j].reference;
                                if jj == idx {
                                    assert(self.dag()[dag_pre.len() as int].reference
                                        == pend0[j].reference);
                                } else if jj < idx {
                                    assert(self.pending_spec()[jj].reference == pend0[j].reference);
                                } else {
                                    assert(self.pending_spec()[jj - 1].reference == pend0[j].reference);
                                }
                            }
                        }
                        assert forall|j: int, k: int|
                            0 <= j < admitted.deep_view().len() && 0 <= k
                                < admitted.deep_view()[j].includes.len() implies contains_ref(
                            dag0 + admitted.deep_view().take(j),
                            #[trigger] admitted.deep_view()[j].includes[k],
                        ) by {
                            if j < adm_pre.len() {
                                assert(admitted.deep_view()[j] == adm_pre[j]);
                                assert(admitted.deep_view().take(j) =~= adm_pre.take(j));
                                assert(contains_ref(dag0 + adm_pre.take(j), adm_pre[j].includes[k]));
                                assert(dag0 + admitted.deep_view().take(j) =~= dag0 + adm_pre.take(j));
                            } else {
                                assert(admitted.deep_view()[j] == pend_pre[idx as int]);
                                assert(admitted.deep_view().take(j) =~= adm_pre);
                                assert(contains_ref(dag_pre, pend_pre[idx as int].includes[k]));
                                assert(dag_pre =~= dag0 + adm_pre);
                                assert(dag0 + admitted.deep_view().take(j) =~= dag_pre);
                            }
                        }
                    }
                },
                None => {
                    done = true;
                },
            }
        }
        admitted
    }

    /// Hand the store over, dropping whatever is still buffered.
    pub fn into_block_store(self) -> (store: BlockStore)
        requires
            self.inv(),
        ensures
            store.inv(),
            store.dag() == self.dag(),
    {
        let BlockManager { blocks_pending: _, block_store } = self;
        block_store
    }

    /// Admit the locally authored block, whose predecessors are present by
    /// construction.
    pub fn add_own_block(&mut self, block: StatementBlock) -> (stored: StatementBlock)
        requires
            old(self).inv(),
            block_well_formed(block@),
            block@.reference.round <= MAX_ROUND,
            !contains_ref(old(self).dag(), block@.reference),
            !views_contain_ref(old(self).pending_spec(), block@.reference),
            forall|i: int, k: int|
                0 <= i < old(self).pending_spec().len() && 0 <= k < old(self).pending_spec()[i].includes.len()
                    ==> (#[trigger] old(self).pending_spec()[i].includes[k]) != block@.reference,
            forall|k: int|
                0 <= k < block@.includes.len() ==> contains_ref(
                    old(self).dag(),
                    #[trigger] block@.includes[k],
                ),
        ensures
            final(self).inv(),
            dag_well_formed(final(self).dag()),
            final(self).dag() =~= old(self).dag().push(block@),
            final(self).pending_spec() == old(self).pending_spec(),
            stored@ == block@,
    {
        let ghost dag_pre = self.dag();
        let stored = block.duplicate();
        self.block_store.insert_block(block);
        proof {
            assert forall|i: int|
                0 <= i < self.pending_spec().len() implies !contains_ref(
                self.dag(),
                (#[trigger] self.pending_spec()[i]).reference,
            ) by {
                if contains_ref(self.dag(), self.pending_spec()[i].reference) {
                    let j = choose|j: int|
                        0 <= j < self.dag().len() && (#[trigger] self.dag()[j]).reference
                            == self.pending_spec()[i].reference;
                    if j < dag_pre.len() {
                        assert(dag_pre[j].reference == self.pending_spec()[i].reference);
                    }
                }
            }
            assert(old(self).all_pending_blocked());
            assert(self.pending_spec() == old(self).pending_spec());
            assert forall|i: int|
                0 <= i < self.pending_spec().len() implies #[trigger] self.pending_blocked_at(i) by {
                assert(0 <= i < old(self).pending_spec().len());
                assert(old(self).pending_blocked_at(i));
                let k0 = choose|k: int|
                    0 <= k < old(self).pending_spec()[i].includes.len() && !contains_ref(
                        old(self).dag(),
                        #[trigger] old(self).pending_spec()[i].includes[k],
                    );
                let inc = self.pending_spec()[i].includes[k0];
                if contains_ref(self.dag(), inc) {
                    let j = choose|j: int|
                        0 <= j < self.dag().len() && (#[trigger] self.dag()[j]).reference == inc;
                    if j < dag_pre.len() {
                        assert(dag_pre[j].reference == inc);
                        assert(contains_ref(dag_pre, inc));
                    }
                    assert(false);
                }
                assert(0 <= k0 < self.pending_spec()[i].includes.len() && !contains_ref(
                    self.dag(),
                    self.pending_spec()[i].includes[k0],
                ));
            }
            assert(self.all_pending_blocked());
        }
        stored
    }
}

} // verus!
