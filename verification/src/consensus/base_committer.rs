use vstd::prelude::*;
use crate::block_store::{
    blocks_at_authority_round_spec, blocks_at_round_spec, contains_ref, dag_well_formed,
    fully_connected_dag, has_block_at, highest_round_spec,
    lemma_blocks_at_authority_round_members, lemma_blocks_at_round_members, linked_spec,
    ref_list_contains, BlockStore, MAX_ROUND,
};
use crate::committee::{
    quorum_threshold_spec, validity_threshold_spec, Committee, MAX_COMMITTEE_SIZE,
};
use crate::consensus::{LeaderStatus, StatusView, DEFAULT_WAVE_LENGTH};
use crate::types::{AuthorityIndex, BlockReference, BlockView, RoundNumber, StatementBlock};

verus! {

/// How one base committer instance is positioned: the wave length, which
/// round within a wave it treats as the leader round (pipelining), and which
/// of several simultaneous leaders it is responsible for (multi-leader).
pub struct BaseCommitterOptions {
    pub wave_length: RoundNumber,
    pub round_offset: RoundNumber,
    pub leader_offset: RoundNumber,
    pub pipelined: bool,
}

impl BaseCommitterOptions {
    /// A wave needs at least a leader round, a voting round and a decision
    /// round; offsets stay inside one wave.
    pub open spec fn valid(self) -> bool {
        &&& 3 <= self.wave_length <= MAX_ROUND
        &&& self.round_offset < self.wave_length
        &&& self.leader_offset <= MAX_COMMITTEE_SIZE
    }
}

/// The leader slot this committer handles at `round`, if any: rounds aligned
/// to its offset get the round-robin leader shifted by the leader offset.
pub open spec fn elect_leader_opt_spec(w: int, o: int, lo: int, n: int, round: int) -> Option<
    AuthorityIndex,
> {
    if round >= o && (round - o) % w == 0 {
        Some((((round + lo) % n) as AuthorityIndex))
    } else {
        None
    }
}

/// A voting-round block whose inclusions name nothing by `leader`: an
/// explicit statement that its author had not seen the leader block.
pub open spec fn blame_block(b: BlockView, leader: AuthorityIndex) -> bool {
    forall|k: int| 0 <= k < b.includes.len() ==> (#[trigger] b.includes[k]).authority != leader
}

/// A voting-round block that includes the leader block: an explicit vote.
pub open spec fn vote_block(b: BlockView, leader_block: BlockReference) -> bool {
    b.includes.contains(leader_block)
}

/// Authority `a` owns a blame among `blocks`.
pub open spec fn has_blame_in(blocks: Seq<BlockView>, a: AuthorityIndex, leader: AuthorityIndex) -> bool {
    exists|i: int|
        0 <= i < blocks.len() && (#[trigger] blocks[i]).reference.authority == a && blame_block(
            blocks[i],
            leader,
        )
}

/// Authority `a` owns a vote among `blocks`.
pub open spec fn has_vote_in(blocks: Seq<BlockView>, a: AuthorityIndex, leader_block: BlockReference) -> bool {
    exists|i: int|
        0 <= i < blocks.len() && (#[trigger] blocks[i]).reference.authority == a && vote_block(
            blocks[i],
            leader_block,
        )
}

/// Authority `a` owns a vote among `blocks` that lies in the causal history
/// of `c`.
pub open spec fn has_linked_vote_in(
    dag: Seq<BlockView>,
    blocks: Seq<BlockView>,
    a: AuthorityIndex,
    c: BlockReference,
    leader_block: BlockReference,
) -> bool {
    exists|i: int|
        0 <= i < blocks.len() && (#[trigger] blocks[i]).reference.authority == a && vote_block(
            blocks[i],
            leader_block,
        ) && linked_spec(dag, c, blocks[i].reference)
}

/// Total weight of the authorities below `upto` that blame `leader` at its
/// voting round (`round + 1`).
pub open spec fn blame_count(
    dag: Seq<BlockView>,
    leader: AuthorityIndex,
    round: RoundNumber,
    upto: int,
) -> int
    decreases upto,
{
    if upto <= 0 {
        0
    } else {
        blame_count(dag, leader, round, upto - 1) + if has_blame_in(
            blocks_at_round_spec(dag, (round + 1) as RoundNumber),
            (upto - 1) as AuthorityIndex,
            leader,
        ) {
            1int
        } else {
            0int
        }
    }
}

/// Total weight of the authorities below `upto` that vote for `leader_block`
/// at its voting round.
pub open spec fn vote_count(dag: Seq<BlockView>, leader_block: BlockReference, upto: int) -> int
    decreases upto,
{
    if upto <= 0 {
        0
    } else {
        vote_count(dag, leader_block, upto - 1) + if has_vote_in(
            blocks_at_round_spec(dag, (leader_block.round + 1) as RoundNumber),
            (upto - 1) as AuthorityIndex,
            leader_block,
        ) {
            1int
        } else {
            0int
        }
    }
}

/// Total weight of the authorities below `upto` whose votes for
/// `leader_block` lie in the causal history of `c`. This single
/// reachability-based count backs both the certificate rule (quorum) and the
/// booster rule (validity threshold).
pub open spec fn linked_vote_count(
    dag: Seq<BlockView>,
    c: BlockReference,
    leader_block: BlockReference,
    upto: int,
) -> int
    decreases upto,
{
    if upto <= 0 {
        0
    } else {
        linked_vote_count(dag, c, leader_block, upto - 1) + if has_linked_vote_in(
            dag,
            blocks_at_round_spec(dag, (leader_block.round + 1) as RoundNumber),
            (upto - 1) as AuthorityIndex,
            c,
            leader_block,
        ) {
            1int
        } else {
            0int
        }
    }
}

/// Authority `a` owns, among `blocks`, a block whose causal history
/// carries votes for `leader_block` of weight at least `threshold`.
pub open spec fn has_anchor_in(
    dag: Seq<BlockView>,
    n: int,
    blocks: Seq<BlockView>,
    a: AuthorityIndex,
    leader_block: BlockReference,
    threshold: int,
) -> bool {
    exists|i: int|
        0 <= i < blocks.len() && (#[trigger] blocks[i]).reference.authority == a
            && linked_vote_count(dag, blocks[i].reference, leader_block, n) >= threshold
}

/// Total weight of the authorities below `upto` that own, at `check_round`,
/// a block whose causal history carries votes for `leader_block` of weight
/// at least `threshold`.
///
/// With a quorum threshold at the decision round this counts certificates;
/// with a validity threshold one round later it counts boosters.
pub open spec fn anchored_count(
    dag: Seq<BlockView>,
    n: int,
    leader_block: BlockReference,
    check_round: RoundNumber,
    threshold: int,
    upto: int,
) -> int
    decreases upto,
{
    if upto <= 0 {
        0
    } else {
        anchored_count(dag, n, leader_block, check_round, threshold, upto - 1) + if has_anchor_in(
            dag,
            n,
            blocks_at_round_spec(dag, check_round),
            (upto - 1) as AuthorityIndex,
            leader_block,
            threshold,
        ) {
            1int
        } else {
            0int
        }
    }
}

/// The direct rule commits a leader block on a quorum of certificates, or,
/// through the booster extension, on a validity threshold of direct votes
/// anchored by a quorum of boosters one round after the decision round.
pub open spec fn block_can_commit_spec(
    dag: Seq<BlockView>,
    n: int,
    b: BlockReference,
    decision_round: RoundNumber,
    boost_round: RoundNumber,
) -> bool {
    ||| anchored_count(dag, n, b, decision_round, quorum_threshold_spec(n), n)
        >= quorum_threshold_spec(n)
    ||| (vote_count(dag, b, n) >= validity_threshold_spec(n) && anchored_count(
        dag,
        n,
        b,
        boost_round,
        validity_threshold_spec(n),
        n,
    ) >= quorum_threshold_spec(n))
}

/// The first leader block (in admission order) that the direct rule can
/// commit, starting the search at `i`.
pub open spec fn first_committable_from(
    dag: Seq<BlockView>,
    n: int,
    lbs: Seq<BlockView>,
    decision_round: RoundNumber,
    boost_round: RoundNumber,
    i: int,
) -> Option<BlockView>
    decreases lbs.len() - i,
{
    if i < 0 || i >= lbs.len() {
        None
    } else if block_can_commit_spec(dag, n, lbs[i].reference, decision_round, boost_round) {
        Some(lbs[i])
    } else {
        first_committable_from(dag, n, lbs, decision_round, boost_round, i + 1)
    }
}

/// The per-wave direct decision rule for the leader slot `(leader, round)`.
///
/// Undecided until the decision round is known; `Skip` on a quorum of
/// blames at the voting round; `Commit` on a quorum of certificates at the
/// decision round (or through the booster extension); `Undecided` otherwise.
pub open spec fn direct_decide_spec(
    dag: Seq<BlockView>,
    n: int,
    w: RoundNumber,
    leader: AuthorityIndex,
    round: RoundNumber,
) -> StatusView {
    let decision_round = (round + w - 1) as RoundNumber;
    let boost_round = (round + w) as RoundNumber;
    if highest_round_spec(dag) < decision_round {
        StatusView::Undecided { authority: leader, round }
    } else if blame_count(dag, leader, round, n) >= quorum_threshold_spec(n) {
        StatusView::Skip { authority: leader, round }
    } else {
        match first_committable_from(
            dag,
            n,
            blocks_at_authority_round_spec(dag, leader, round),
            decision_round,
            boost_round,
            0,
        ) {
            Some(b) => StatusView::Commit { block: b },
            None => StatusView::Undecided { authority: leader, round },
        }
    }
}

/// The first leader block (in admission order) lying in the causal history
/// of `anchor`, starting the search at `i`.
pub open spec fn first_linked_from(
    dag: Seq<BlockView>,
    lbs: Seq<BlockView>,
    anchor: BlockReference,
    i: int,
) -> Option<BlockView>
    decreases lbs.len() - i,
{
    if i < 0 || i >= lbs.len() {
        None
    } else if linked_spec(dag, anchor, lbs[i].reference) {
        Some(lbs[i])
    } else {
        first_linked_from(dag, lbs, anchor, i + 1)
    }
}

/// The indirect decision rule, reading the later slots' statuses from the
/// nearest upward. `laters` holds the statuses of later slots in the order
/// the committer produced them (highest round first); the scan therefore
/// walks it from its end.
///
/// The first committed anchor at or above the decision round settles the
/// slot: `Commit` if its causal history holds the candidate leader block,
/// else `Skip`. An undecided anchor below nothing can be said of stops the
/// scan as `Undecided`; skipped anchors are passed over.
pub open spec fn indirect_decide_spec(
    dag: Seq<BlockView>,
    w: RoundNumber,
    leader: AuthorityIndex,
    round: RoundNumber,
    laters: Seq<StatusView>,
) -> StatusView
    decreases laters.len(),
{
    if laters.len() == 0 {
        StatusView::Undecided { authority: leader, round }
    } else {
        let s = laters.last();
        if s.round() < round + w {
            indirect_decide_spec(dag, w, leader, round, laters.drop_last())
        } else {
            match s {
                StatusView::Commit { block } => match first_linked_from(
                    dag,
                    blocks_at_authority_round_spec(dag, leader, round),
                    block.reference,
                    0,
                ) {
                    Some(b) => StatusView::Commit { block: b },
                    None => StatusView::Skip { authority: leader, round },
                },
                StatusView::Skip { .. } => indirect_decide_spec(
                    dag,
                    w,
                    leader,
                    round,
                    laters.drop_last(),
                ),
                StatusView::Undecided { .. } => StatusView::Undecided { authority: leader, round },
            }
        }
    }
}

/// Whether `b` is an explicit vote for `leader_block`.
fn is_vote(b: &StatementBlock, leader_block: BlockReference) -> (r: bool)
    ensures
        r == vote_block(b@, leader_block),
{
    ref_list_contains(b.includes(), leader_block)
}

/// Whether `b` blames `leader`: none of its inclusions is authored by
/// `leader`.
fn is_blame(b: &StatementBlock, leader: AuthorityIndex) -> (r: bool)
    ensures
        r == blame_block(b@, leader),
{
    let incs = b.includes();
    let m = incs.len();
    let mut i: usize = 0;
    while i < m
        invariant
            i <= m,
            m == b@.includes.len(),
            incs@ == b@.includes,
            forall|j: int| 0 <= j < i ==> (#[trigger] b@.includes[j]).authority != leader,
        decreases m - i,
    {
        if incs[i].authority == leader {
            return false;
        }
        i = i + 1;
    }
    true
}

/// Whether authority `a` owns a blame against `leader` among `voting`.
fn authority_has_blame(
    voting: &Vec<StatementBlock>,
    a: AuthorityIndex,
    leader: AuthorityIndex,
) -> (r: bool)
    ensures
        r == has_blame_in(voting.deep_view(), a, leader),
{
    let ghost vseq = voting.deep_view();
    let m = voting.len();
    let mut i: usize = 0;
    while i < m
        invariant
            i <= m,
            m == vseq.len(),
            vseq == voting.deep_view(),
            forall|j: int|
                0 <= j < i ==> !((#[trigger] vseq[j]).reference.authority == a && blame_block(
                    vseq[j],
                    leader,
                )),
        decreases m - i,
    {
        let b = &voting[i];
        assert(b@ == vseq[i as int]);
        if b.author() == a && is_blame(b, leader) {
            return true;
        }
        i = i + 1;
    }
    false
}

/// When the leader authored nothing at all, every voting-round block is a
/// blame: its inclusions all name blocks of the DAG, and none of those is
/// the leader's.
proof fn lemma_omission_makes_blames(
    dag: Seq<BlockView>,
    leader: AuthorityIndex,
    round: RoundNumber,
    a: AuthorityIndex,
)
    requires
        dag_well_formed(dag),
        round < MAX_ROUND,
        forall|i: int| 0 <= i < dag.len() ==> (#[trigger] dag[i].reference).authority != leader,
        has_block_at(dag, a, (round + 1) as RoundNumber),
    ensures
        has_blame_in(blocks_at_round_spec(dag, (round + 1) as RoundNumber), a, leader),
{
    let voting = blocks_at_round_spec(dag, (round + 1) as RoundNumber);
    let i = choose|i: int|
        0 <= i < dag.len() && (#[trigger] dag[i].reference).authority == a && dag[i].reference.round
            == round + 1;
    lemma_blocks_at_round_members(dag, (round + 1) as RoundNumber);
    assert(voting.contains(dag[i]));
    let j = choose|j: int| 0 <= j < voting.len() && voting[j] == dag[i];
    assert forall|k: int| 0 <= k < voting[j].includes.len() implies (#[trigger] voting[j].includes[k]).authority
        != leader by {
        assert(contains_ref(dag, dag[i].includes[k]));
        let m = choose|m: int|
            0 <= m < dag.len() && (#[trigger] dag[m].reference) == dag[i].includes[k];
        assert(dag[m].reference.authority != leader);
    }
    assert(blame_block(voting[j], leader));
    assert(voting[j].reference.authority == a);
}

/// A slate of blames from every authority reaches any threshold within the
/// committee.
proof fn lemma_blame_count_full(
    dag: Seq<BlockView>,
    leader: AuthorityIndex,
    round: RoundNumber,
    upto: int,
)
    requires
        dag_well_formed(dag),
        round < MAX_ROUND,
        forall|i: int| 0 <= i < dag.len() ==> (#[trigger] dag[i].reference).authority != leader,
        forall|a: AuthorityIndex|
            0 <= a < upto ==> #[trigger] has_block_at(dag, a, (round + 1) as RoundNumber),
        upto >= 0,
    ensures
        blame_count(dag, leader, round, upto) == upto,
    decreases upto,
{
    if upto > 0 {
        lemma_blame_count_full(dag, leader, round, upto - 1);
        lemma_omission_makes_blames(dag, leader, round, (upto - 1) as AuthorityIndex);
    }
}

/// Leader omission forces a skip: if the elected leader's block is withheld
/// from the DAG entirely and every authority has reached the voting round,
/// the direct rule decides `Skip` (never `Undecided`) as soon as the
/// decision round is known.
pub proof fn lemma_leader_omission_skips(
    dag: Seq<BlockView>,
    n: int,
    w: RoundNumber,
    leader: AuthorityIndex,
    round: RoundNumber,
)
    requires
        dag_well_formed(dag),
        1 <= n <= MAX_COMMITTEE_SIZE,
        3 <= w,
        round < MAX_ROUND,
        highest_round_spec(dag) >= round + w - 1,
        forall|i: int| 0 <= i < dag.len() ==> (#[trigger] dag[i].reference).authority != leader,
        forall|a: AuthorityIndex|
            0 <= a < n ==> #[trigger] has_block_at(dag, a, (round + 1) as RoundNumber),
    ensures
        direct_decide_spec(dag, n, w, leader, round) == (StatusView::Skip { authority: leader, round }),
{
    lemma_blame_count_full(dag, leader, round, n);
}

/// A blame quorum forces a skip: whenever the voting round carries a quorum
/// of blames and the decision round is known, the direct rule decides
/// `Skip`, exactly as in the omission case.
pub proof fn lemma_blame_quorum_skips(
    dag: Seq<BlockView>,
    n: int,
    w: RoundNumber,
    leader: AuthorityIndex,
    round: RoundNumber,
)
    requires
        3 <= w,
        round < MAX_ROUND,
        highest_round_spec(dag) >= round + w - 1,
        blame_count(dag, leader, round, n) >= quorum_threshold_spec(n),
    ensures
        direct_decide_spec(dag, n, w, leader, round) == (StatusView::Skip { authority: leader, round }),
{
}

/// If no leader block can muster a committing quorum, searching finds none.
proof fn lemma_no_committable(
    dag: Seq<BlockView>,
    n: int,
    lbs: Seq<BlockView>,
    decision_round: RoundNumber,
    boost_round: RoundNumber,
    i: int,
)
    requires
        forall|j: int|
            0 <= j < lbs.len() ==> !block_can_commit_spec(
                dag,
                n,
                (#[trigger] lbs[j]).reference,
                decision_round,
                boost_round,
            ),
    ensures
        first_committable_from(dag, n, lbs, decision_round, boost_round, i) is None,
    decreases lbs.len() - i,
{
    if 0 <= i < lbs.len() {
        lemma_no_committable(dag, n, lbs, decision_round, boost_round, i + 1);
    }
}

/// No false commit under insufficient evidence: when no blame quorum
/// exists and no leader block has either a quorum of certificates or a
/// boosted validity threshold of votes, the direct rule stays `Undecided`
/// even after the decision round — it never guesses.
pub proof fn lemma_undecided_without_evidence(
    dag: Seq<BlockView>,
    n: int,
    w: RoundNumber,
    leader: AuthorityIndex,
    round: RoundNumber,
)
    requires
        3 <= w,
        round < MAX_ROUND,
        blame_count(dag, leader, round, n) < quorum_threshold_spec(n),
        forall|j: int|
            0 <= j < blocks_at_authority_round_spec(dag, leader, round).len()
                ==> !block_can_commit_spec(
                dag,
                n,
                (#[trigger] blocks_at_authority_round_spec(dag, leader, round)[j]).reference,
                (round + w - 1) as RoundNumber,
                (round + w) as RoundNumber,
            ),
    ensures
        direct_decide_spec(dag, n, w, leader, round) == (StatusView::Undecided {
            authority: leader,
            round,
        }),
{
    lemma_no_committable(
        dag,
        n,
        blocks_at_authority_round_spec(dag, leader, round),
        (round + w - 1) as RoundNumber,
        (round + w) as RoundNumber,
        0,
    );
}

/// A linked leader block is found by the search, at or before its position.
proof fn lemma_first_linked_some(
    dag: Seq<BlockView>,
    lbs: Seq<BlockView>,
    anchor: BlockReference,
    i: int,
    witness: int,
)
    requires
        0 <= i <= witness < lbs.len(),
        linked_spec(dag, anchor, lbs[witness].reference),
    ensures
        first_linked_from(dag, lbs, anchor, i) matches Some(b) && lbs.contains(b) && linked_spec(
            dag,
            anchor,
            b.reference,
        ),
    decreases lbs.len() - i,
{
    if linked_spec(dag, anchor, lbs[i].reference) {
        assert(lbs.contains(lbs[i]));
    } else {
        lemma_first_linked_some(dag, lbs, anchor, i + 1, witness);
    }
}

/// Indirect commit via an anchor: when the nearest later leader slot
/// already evaluated is a committed anchor at or above this slot's
/// decision round, and the anchor's causal history holds one of the
/// candidate's leader blocks, the indirect rule commits the candidate —
/// it does not stay `Undecided`.
pub proof fn lemma_indirect_commit_via_anchor(
    dag: Seq<BlockView>,
    w: RoundNumber,
    leader: AuthorityIndex,
    round: RoundNumber,
    laters: Seq<StatusView>,
    witness: int,
)
    requires
        laters.len() > 0,
        laters.last() matches StatusView::Commit { block } && laters.last().round() >= round + w
            && 0 <= witness < blocks_at_authority_round_spec(dag, leader, round).len()
            && linked_spec(
            dag,
            block.reference,
            blocks_at_authority_round_spec(dag, leader, round)[witness].reference,
        ),
    ensures
        indirect_decide_spec(dag, w, leader, round, laters) matches StatusView::Commit { block }
            && blocks_at_authority_round_spec(dag, leader, round).contains(block),
{
    let anchor = laters.last()->Commit_block;
    let lbs = blocks_at_authority_round_spec(dag, leader, round);
    lemma_first_linked_some(dag, lbs, anchor.reference, 0, witness);
}

/// In a fully connected DAG every block reaches every block of any earlier
/// round.
proof fn lemma_full_dag_linked(dag: Seq<BlockView>, n: int, hi: int, i: int, j: int)
    requires
        dag_well_formed(dag),
        fully_connected_dag(dag, n, hi),
        1 <= n,
        0 <= i < dag.len(),
        0 <= j < dag.len(),
        dag[j].reference.round < dag[i].reference.round,
    ensures
        linked_spec(dag, dag[i].reference, dag[j].reference),
    decreases dag[i].reference.round - dag[j].reference.round,
{
    crate::block_store::lemma_block_of_index(dag, i);
    crate::block_store::lemma_block_of_index(dag, j);
    if dag[j].reference.round == dag[i].reference.round - 1 {
        assert(dag[i].includes.contains(dag[j].reference));
        let k = choose|k: int|
            0 <= k < dag[i].includes.len() && dag[i].includes[k] == dag[j].reference;
        crate::block_store::lemma_linked_step(dag, dag[i].reference, k);
    } else {
        let mid_round = (dag[i].reference.round - 1) as RoundNumber;
        assert(has_block_at(dag, 0, mid_round));
        let z = choose|z: int|
            0 <= z < dag.len() && (#[trigger] dag[z].reference).authority == 0
                && dag[z].reference.round == mid_round;
        assert(dag[i].includes.contains(dag[z].reference));
        let k = choose|k: int|
            0 <= k < dag[i].includes.len() && dag[i].includes[k] == dag[z].reference;
        crate::block_store::lemma_linked_step(dag, dag[i].reference, k);
        lemma_full_dag_linked(dag, n, hi, z, j);
        crate::block_store::lemma_linked_trans(
            dag,
            dag[i].reference,
            dag[z].reference,
            dag[j].reference,
        );
    }
}

/// In a fully connected DAG nobody blames any leader: every voting-round
/// block includes the leader's block.
proof fn lemma_full_dag_no_blame(
    dag: Seq<BlockView>,
    n: int,
    hi: int,
    leader: AuthorityIndex,
    round: RoundNumber,
    upto: int,
)
    requires
        dag_well_formed(dag),
        fully_connected_dag(dag, n, hi),
        1 <= n,
        0 <= leader < n,
        round < MAX_ROUND,
        round + 1 <= hi,
    ensures
        blame_count(dag, leader, round, upto) == 0,
    decreases upto,
{
    if upto > 0 {
        lemma_full_dag_no_blame(dag, n, hi, leader, round, upto - 1);
        let voting = blocks_at_round_spec(dag, (round + 1) as RoundNumber);
        lemma_blocks_at_round_members(dag, (round + 1) as RoundNumber);
        assert(has_block_at(dag, leader, round));
        let lb = choose|i: int|
            0 <= i < dag.len() && (#[trigger] dag[i].reference).authority == leader
                && dag[i].reference.round == round;
        assert forall|i: int|
            0 <= i < voting.len() implies !blame_block(#[trigger] voting[i], leader) by {
            assert(dag.contains(voting[i]));
            let vi = choose|vi: int| 0 <= vi < dag.len() && dag[vi] == voting[i];
            assert(dag[vi].includes.contains(dag[lb].reference));
            let k = choose|k: int|
                0 <= k < dag[vi].includes.len() && dag[vi].includes[k] == dag[lb].reference;
            assert(voting[i].includes[k].authority == leader);
        }
    }
}

/// In a fully connected DAG every authority's vote for the leader lies in
/// the causal history of every decision-round block.
proof fn lemma_full_dag_linked_votes(
    dag: Seq<BlockView>,
    n: int,
    hi: int,
    c: int,
    leader_block: BlockReference,
    upto: int,
)
    requires
        dag_well_formed(dag),
        fully_connected_dag(dag, n, hi),
        1 <= n <= MAX_COMMITTEE_SIZE,
        0 <= upto <= n,
        0 <= c < dag.len(),
        contains_ref(dag, leader_block),
        leader_block.round < MAX_ROUND,
        leader_block.round + 1 <= hi,
        dag[c].reference.round > leader_block.round + 1,
    ensures
        linked_vote_count(dag, dag[c].reference, leader_block, upto) == upto,
    decreases upto,
{
    if upto > 0 {
        lemma_full_dag_linked_votes(dag, n, hi, c, leader_block, upto - 1);
        let a = (upto - 1) as AuthorityIndex;
        let voting = blocks_at_round_spec(dag, (leader_block.round + 1) as RoundNumber);
        lemma_blocks_at_round_members(dag, (leader_block.round + 1) as RoundNumber);
        assert(has_block_at(dag, a, (leader_block.round + 1) as RoundNumber));
        let v = choose|v: int|
            0 <= v < dag.len() && (#[trigger] dag[v].reference).authority == a
                && dag[v].reference.round == leader_block.round + 1;
        assert(voting.contains(dag[v]));
        let vi = choose|vi: int| 0 <= vi < voting.len() && voting[vi] == dag[v];
        let lb = choose|lb: int| 0 <= lb < dag.len() && (#[trigger] dag[lb].reference) == leader_block;
        assert(dag[v].includes.contains(dag[lb].reference));
        assert(vote_block(voting[vi], leader_block));
        lemma_full_dag_linked(dag, n, hi, c, v);
        assert(has_linked_vote_in(dag, voting, a, dag[c].reference, leader_block));
        assert(linked_vote_count(dag, dag[c].reference, leader_block, upto) == linked_vote_count(
            dag,
            dag[c].reference,
            leader_block,
            upto - 1,
        ) + 1);
    }
}

/// In a fully connected DAG every authority holds a certificate for the
/// leader at the decision round.
proof fn lemma_full_dag_support(
    dag: Seq<BlockView>,
    n: int,
    hi: int,
    leader_block: BlockReference,
    decision_round: RoundNumber,
    upto: int,
)
    requires
        dag_well_formed(dag),
        fully_connected_dag(dag, n, hi),
        1 <= n <= MAX_COMMITTEE_SIZE,
        0 <= upto <= n,
        contains_ref(dag, leader_block),
        leader_block.round < MAX_ROUND,
        leader_block.round + 1 < decision_round <= hi,
    ensures
        anchored_count(
            dag,
            n,
            leader_block,
            decision_round,
            quorum_threshold_spec(n),
            upto,
        ) == upto,
    decreases upto,
{
    if upto > 0 {
        lemma_full_dag_support(dag, n, hi, leader_block, decision_round, upto - 1);
        let a = (upto - 1) as AuthorityIndex;
        let deciding = blocks_at_round_spec(dag, decision_round);
        lemma_blocks_at_round_members(dag, decision_round);
        assert(has_block_at(dag, a, decision_round));
        let c = choose|c: int|
            0 <= c < dag.len() && (#[trigger] dag[c].reference).authority == a
                && dag[c].reference.round == decision_round;
        assert(deciding.contains(dag[c]));
        let ci = choose|ci: int| 0 <= ci < deciding.len() && deciding[ci] == dag[c];
        lemma_full_dag_linked_votes(dag, n, hi, c, leader_block, n);
        assert(linked_vote_count(dag, deciding[ci].reference, leader_block, n)
            >= quorum_threshold_spec(n));
        assert(has_anchor_in(dag, n, deciding, a, leader_block, quorum_threshold_spec(n)));
        assert(anchored_count(dag, n, leader_block, decision_round, quorum_threshold_spec(n), upto)
            == anchored_count(
            dag,
            n,
            leader_block,
            decision_round,
            quorum_threshold_spec(n),
            upto - 1,
        ) + 1);
    }
}

/// Sequential progress under ideal conditions: on a fully connected DAG the
/// direct rule commits the leader of every round whose decision round is
/// known — wave after wave, every leader slot yields a `Commit`.
pub proof fn theorem_full_dag_commits(
    dag: Seq<BlockView>,
    n: int,
    hi: int,
    w: RoundNumber,
    leader: AuthorityIndex,
    round: RoundNumber,
)
    requires
        dag_well_formed(dag),
        fully_connected_dag(dag, n, hi),
        1 <= n <= MAX_COMMITTEE_SIZE,
        3 <= w,
        0 <= leader < n,
        round < MAX_ROUND,
        round + w - 1 <= hi <= MAX_ROUND,
    ensures
        direct_decide_spec(dag, n, w, leader, round) matches StatusView::Commit { block }
            && block.reference.authority == leader && block.reference.round == round,
{
    let decision_round = (round + w - 1) as RoundNumber;
    let boost_round = (round + w) as RoundNumber;
    // the decision round is known
    assert(has_block_at(dag, 0, decision_round));
    let d = choose|d: int|
        0 <= d < dag.len() && (#[trigger] dag[d].reference).authority == 0 && dag[d].reference.round
            == decision_round;
    crate::block_store::lemma_highest_round_bounds(dag);
    assert(highest_round_spec(dag) >= decision_round);
    // nobody blames the leader
    lemma_full_dag_no_blame(dag, n, hi, leader, round, n);
    // the leader's first block enjoys full support
    let lbs = blocks_at_authority_round_spec(dag, leader, round);
    lemma_blocks_at_authority_round_members(dag, leader, round);
    assert(has_block_at(dag, leader, round));
    let li = choose|li: int|
        0 <= li < dag.len() && (#[trigger] dag[li].reference).authority == leader
            && dag[li].reference.round == round;
    assert(lbs.contains(dag[li]));
    assert(lbs.len() > 0);
    let first = lbs[0];
    assert(dag.contains(first));
    let fi = choose|fi: int| 0 <= fi < dag.len() && dag[fi] == first;
    crate::block_store::lemma_block_of_index(dag, fi);
    lemma_full_dag_support(dag, n, hi, first.reference, decision_round, n);
    assert(anchored_count(dag, n, first.reference, decision_round, quorum_threshold_spec(n), n)
        >= quorum_threshold_spec(n));
    assert(block_can_commit_spec(dag, n, first.reference, decision_round, boost_round));
    assert(first_committable_from(dag, n, lbs, decision_round, boost_round, 0) == Some(first));
}

/// One instance of the per-wave direct/indirect decision rule, for a single
/// leader slot and pipeline offset.
pub struct BaseCommitter {
    committee: Committee,
    options: BaseCommitterOptions,
}

impl BaseCommitter {
    pub closed spec fn committee_spec(self) -> Committee {
        self.committee
    }

    pub closed spec fn options_spec(self) -> BaseCommitterOptions {
        self.options
    }

    pub open spec fn valid(self) -> bool {
        self.options_spec().valid()
    }

    /// A committer with the default, non-pipelined, single-leader options.
    pub fn new(committee: Committee) -> (c: BaseCommitter)
        ensures
            c.valid(),
            c.committee_spec() == committee,
            c.options_spec().wave_length == DEFAULT_WAVE_LENGTH,
            c.options_spec().round_offset == 0,
            c.options_spec().leader_offset == 0,
    {
        BaseCommitter {
            committee,
            options: BaseCommitterOptions {
                wave_length: DEFAULT_WAVE_LENGTH,
                round_offset: 0,
                leader_offset: 0,
                pipelined: false,
            },
        }
    }

    /// The same committer repositioned by `options`.
    pub fn with_options(self, options: BaseCommitterOptions) -> (c: BaseCommitter)
        requires
            options.valid(),
        ensures
            c.valid(),
            c.committee_spec() == self.committee_spec(),
            c.options_spec() == options,
    {
        BaseCommitter { committee: self.committee, options }
    }

    /// Whether a quorum of voting-round blocks blames `leader`.
    fn enough_blame(
        &self,
        store: &BlockStore,
        leader: AuthorityIndex,
        round: RoundNumber,
    ) -> (r: bool)
        requires
            store.inv(),
            self.valid(),
            round <= MAX_ROUND,
        ensures
            r == (blame_count(store.dag(), leader, round, self.committee_spec().len_spec())
                >= quorum_threshold_spec(self.committee_spec().len_spec())),
    {
        let n = self.committee.len();
        let quorum = self.committee.quorum_threshold();
        let voting = store.get_blocks_by_round(round + 1);
        let ghost vseq = blocks_at_round_spec(store.dag(), (round + 1) as RoundNumber);
        let mut weight: u64 = 0;
        let mut a: u64 = 0;
        while a < n
            invariant
                a <= n,
                n == self.committee_spec().len_spec(),
                weight <= a,
                round <= MAX_ROUND,
                voting.deep_view() == vseq,
                vseq == blocks_at_round_spec(store.dag(), (round + 1) as RoundNumber),
                weight == blame_count(store.dag(), leader, round, a as int),
            decreases n - a,
        {
            if authority_has_blame(&voting, a, leader) {
                weight = weight + 1;
            }
            proof {
                assert(blame_count(store.dag(), leader, round, a + 1) == blame_count(
                    store.dag(),
                    leader,
                    round,
                    a as int,
                ) + if has_blame_in(vseq, a, leader) {
                    1int
                } else {
                    0int
                });
            }
            a = a + 1;
        }
        weight >= quorum
    }

    /// Total weight of the authorities whose votes for `leader_block` lie in
    /// the causal history of `c`.
    fn count_linked_votes(
        &self,
        store: &BlockStore,
        c: &StatementBlock,
        leader_block: BlockReference,
    ) -> (weight: u64)
        requires
            store.inv(),
            self.valid(),
            contains_ref(store.dag(), c@.reference),
            leader_block.round <= MAX_ROUND,
        ensures
            weight == linked_vote_count(
                store.dag(),
                c@.reference,
                leader_block,
                self.committee_spec().len_spec(),
            ),
    {
        let n = self.committee.len();
        let votes = store.get_blocks_by_round(leader_block.round + 1);
        let ghost vseq = blocks_at_round_spec(store.dag(), (leader_block.round + 1) as RoundNumber);
        proof {
            lemma_blocks_at_round_members(store.dag(), (leader_block.round + 1) as RoundNumber);
        }
        let m = votes.len();
        let mut weight: u64 = 0;
        let mut a: u64 = 0;
        while a < n
            invariant
                a <= n,
                n == self.committee_spec().len_spec(),
                weight <= a,
                store.inv(),
                contains_ref(store.dag(), c@.reference),
                m == vseq.len(),
                leader_block.round <= MAX_ROUND,
                votes.deep_view() == vseq,
                vseq == blocks_at_round_spec(store.dag(), (leader_block.round + 1) as RoundNumber),
                forall|i: int| 0 <= i < vseq.len() ==> store.dag().contains(#[trigger] vseq[i]),
                weight == linked_vote_count(store.dag(), c@.reference, leader_block, a as int),
            decreases n - a,
        {
            let mut found = false;
            let mut i: usize = 0;
            while i < m
                invariant
                    i <= m,
                    m == vseq.len(),
                    store.inv(),
                    contains_ref(store.dag(), c@.reference),
                    votes.deep_view() == vseq,
                    forall|j: int| 0 <= j < vseq.len() ==> store.dag().contains(#[trigger] vseq[j]),
                    found == has_linked_vote_in(
                        store.dag(),
                        vseq.take(i as int),
                        a,
                        c@.reference,
                        leader_block,
                    ),
                decreases m - i,
            {
                proof {
                    assert(vseq.take(i + 1).drop_last() =~= vseq.take(i as int));
                }
                if !found {
                    let v = &votes[i];
                    assert(v@ == vseq[i as int]);
                    if v.author() == a && is_vote(v, leader_block) {
                        proof {
                            let j = choose|j: int|
                                0 <= j < store.dag().len() && store.dag()[j] == vseq[i as int];
                            assert(store.dag()[j].reference == vseq[i as int].reference);
                            assert(contains_ref(store.dag(), vseq[i as int].reference));
                        }
                        if store.linked(c, v) {
                            found = true;
                        }
                    }
                }
                proof {
                    assert(vseq.take(i + 1)[i as int] == vseq[i as int]);
                    assert(found == has_linked_vote_in(
                        store.dag(),
                        vseq.take(i + 1),
                        a,
                        c@.reference,
                        leader_block,
                    ));
                }
                i = i + 1;
            }
            proof {
                assert(vseq.take(m as int) =~= vseq);
            }
            if found {
                weight = weight + 1;
            }
            proof {
                assert(linked_vote_count(store.dag(), c@.reference, leader_block, a + 1)
                    == linked_vote_count(store.dag(), c@.reference, leader_block, a as int)
                    + if has_linked_vote_in(store.dag(), vseq, a, c@.reference, leader_block) {
                    1int
                } else {
                    0int
                });
            }
            a = a + 1;
        }
        weight
    }

    /// Total weight of the authorities voting for `leader_block` at its
    /// voting round.
    fn count_votes(&self, store: &BlockStore, leader_block: BlockReference) -> (weight: u64)
        requires
            store.inv(),
            self.valid(),
            leader_block.round <= MAX_ROUND,
        ensures
            weight == vote_count(store.dag(), leader_block, self.committee_spec().len_spec()),
    {
        let n = self.committee.len();
        let votes = store.get_blocks_by_round(leader_block.round + 1);
        let ghost vseq = blocks_at_round_spec(store.dag(), (leader_block.round + 1) as RoundNumber);
        let m = votes.len();
        let mut weight: u64 = 0;
        let mut a: u64 = 0;
        while a < n
            invariant
                a <= n,
                n == self.committee_spec().len_spec(),
                weight <= a,
                leader_block.round <= MAX_ROUND,
                m == vseq.len(),
                votes.deep_view() == vseq,
                vseq == blocks_at_round_spec(store.dag(), (leader_block.round + 1) as RoundNumber),
                weight == vote_count(store.dag(), leader_block, a as int),
            decreases n - a,
        {
            let mut found = false;
            let mut i: usize = 0;
            while i < m
                invariant
                    i <= m,
                    m == vseq.len(),
                    votes.deep_view() == vseq,
                    found == has_vote_in(vseq.take(i as int), a, leader_block),
                decreases m - i,
            {
                proof {
                    assert(vseq.take(i + 1).drop_last() =~= vseq.take(i as int));
                    assert(vseq.take(i + 1)[i as int] == vseq[i as int]);
                }
                if !found {
                    let v = &votes[i];
                    assert(v@ == vseq[i as int]);
                    if v.author() == a && is_vote(v, leader_block) {
                        found = true;
                    }
                }
                proof {
                    assert(found == has_vote_in(vseq.take(i + 1), a, leader_block));
                }
                i = i + 1;
            }
            proof {
                assert(vseq.take(m as int) =~= vseq);
            }
            if found {
                weight = weight + 1;
            }
            proof {
                assert(vote_count(store.dag(), leader_block, a + 1) == vote_count(
                    store.dag(),
                    leader_block,
                    a as int,
                ) + if has_vote_in(vseq, a, leader_block) {
                    1int
                } else {
                    0int
                });
            }
            a = a + 1;
        }
        weight
    }

    /// Total weight of the authorities owning, at `check_round`, a block
    /// whose causal history carries votes for `leader_block` of weight at
    /// least `threshold`.
    fn count_anchors(
        &self,
        store: &BlockStore,
        leader_block: BlockReference,
        check_round: RoundNumber,
        threshold: u64,
    ) -> (weight: u64)
        requires
            store.inv(),
            self.valid(),
            leader_block.round <= MAX_ROUND,
        ensures
            weight == anchored_count(
                store.dag(),
                self.committee_spec().len_spec(),
                leader_block,
                check_round,
                threshold as int,
                self.committee_spec().len_spec(),
            ),
    {
        let ghost n_spec = self.committee_spec().len_spec();
        let n = self.committee.len();
        let blocks = store.get_blocks_by_round(check_round);
        let ghost cseq = blocks_at_round_spec(store.dag(), check_round);
        proof {
            lemma_blocks_at_round_members(store.dag(), check_round);
        }
        let m = blocks.len();
        let mut weight: u64 = 0;
        let mut a: u64 = 0;
        while a < n
            invariant
                a <= n,
                n == n_spec,
                n_spec == self.committee_spec().len_spec(),
                weight <= a,
                store.inv(),
                self.valid(),
                leader_block.round <= MAX_ROUND,
                m == cseq.len(),
                blocks.deep_view() == cseq,
                cseq == blocks_at_round_spec(store.dag(), check_round),
                forall|i: int| 0 <= i < cseq.len() ==> store.dag().contains(#[trigger] cseq[i]),
                weight == anchored_count(
                    store.dag(),
                    n_spec,
                    leader_block,
                    check_round,
                    threshold as int,
                    a as int,
                ),
            decreases n - a,
        {
            let mut found = false;
            let mut i: usize = 0;
            while i < m
                invariant
                    i <= m,
                    m == cseq.len(),
                    store.inv(),
                    self.valid(),
                    leader_block.round <= MAX_ROUND,
                    n_spec == self.committee_spec().len_spec(),
                    blocks.deep_view() == cseq,
                    forall|j: int| 0 <= j < cseq.len() ==> store.dag().contains(#[trigger] cseq[j]),
                    found == has_anchor_in(
                        store.dag(),
                        n_spec,
                        cseq.take(i as int),
                        a,
                        leader_block,
                        threshold as int,
                    ),
                decreases m - i,
            {
                proof {
                    assert(cseq.take(i + 1).drop_last() =~= cseq.take(i as int));
                    assert(cseq.take(i + 1)[i as int] == cseq[i as int]);
                }
                if !found {
                    let c = &blocks[i];
                    assert(c@ == cseq[i as int]);
                    if c.author() == a {
                        proof {
                            let j = choose|j: int|
                                0 <= j < store.dag().len() && store.dag()[j] == cseq[i as int];
                            assert(store.dag()[j].reference == cseq[i as int].reference);
                            assert(contains_ref(store.dag(), cseq[i as int].reference));
                        }
                        if self.count_linked_votes(store, c, leader_block) >= threshold {
                            found = true;
                        }
                    }
                }
                proof {
                    assert(found == has_anchor_in(
                        store.dag(),
                        n_spec,
                        cseq.take(i + 1),
                        a,
                        leader_block,
                        threshold as int,
                    ));
                }
                i = i + 1;
            }
            proof {
                assert(cseq.take(m as int) =~= cseq);
            }
            if found {
                weight = weight + 1;
            }
            proof {
                assert(anchored_count(
                    store.dag(),
                    n_spec,
                    leader_block,
                    check_round,
                    threshold as int,
                    a + 1,
                ) == anchored_count(
                    store.dag(),
                    n_spec,
                    leader_block,
                    check_round,
                    threshold as int,
                    a as int,
                ) + if has_anchor_in(
                    store.dag(),
                    n_spec,
                    cseq,
                    a,
                    leader_block,
                    threshold as int,
                ) {
                    1int
                } else {
                    0int
                });
            }
            a = a + 1;
        }
        weight
    }

    /// Resolve the slot `(leader, round)` purely from the votes observed by
    /// its decision round: the direct decision rule.
    pub fn try_direct_decide(
        &self,
        store: &BlockStore,
        leader: AuthorityIndex,
        round: RoundNumber,
    ) -> (status: LeaderStatus)
        requires
            store.inv(),
            self.valid(),
            round <= MAX_ROUND,
        ensures
            status@ == direct_decide_spec(
                store.dag(),
                self.committee_spec().len_spec(),
                self.options_spec().wave_length,
                leader,
                round,
            ),
    {
        let ghost dag = store.dag();
        let ghost n_spec = self.committee_spec().len_spec();
        let w = self.options.wave_length;
        let decision_round = round + w - 1;
        let boost_round = round + w;
        if store.highest_round() < decision_round {
            return LeaderStatus::Undecided(leader, round);
        }
        if self.enough_blame(store, leader, round) {
            return LeaderStatus::Skip(leader, round);
        }
        let quorum = self.committee.quorum_threshold();
        let validity = self.committee.validity_threshold();
        let leader_blocks = store.get_blocks_at_authority_round(leader, round);
        let ghost lbs = blocks_at_authority_round_spec(dag, leader, round);
        proof {
            lemma_blocks_at_authority_round_members(dag, leader, round);
        }
        let m = leader_blocks.len();
        let mut i: usize = 0;
        while i < m
            invariant
                i <= m,
                m == lbs.len(),
                store.inv(),
                self.valid(),
                dag == store.dag(),
                n_spec == self.committee_spec().len_spec(),
                w == self.options_spec().wave_length,
                round <= MAX_ROUND,
                decision_round == round + w - 1,
                boost_round == round + w,
                quorum == quorum_threshold_spec(n_spec),
                validity == validity_threshold_spec(n_spec),
                highest_round_spec(dag) >= decision_round,
                blame_count(dag, leader, round, n_spec) < quorum_threshold_spec(n_spec),
                leader_blocks.deep_view() == lbs,
                lbs == blocks_at_authority_round_spec(dag, leader, round),
                forall|j: int| 0 <= j < lbs.len() ==> (#[trigger] lbs[j]).reference.round == round,
                first_committable_from(dag, n_spec, lbs, decision_round, boost_round, 0)
                    == first_committable_from(dag, n_spec, lbs, decision_round, boost_round, i as int),
            decreases m - i,
        {
            let b = &leader_blocks[i];
            assert(b@ == lbs[i as int]);
            let bref = b.reference();
            let supported = self.count_anchors(store, bref, decision_round, quorum) >= quorum;
            let boosted = if supported {
                false
            } else {
                self.count_votes(store, bref) >= validity && self.count_anchors(
                    store,
                    bref,
                    boost_round,
                    validity,
                ) >= quorum
            };
            if supported || boosted {
                proof {
                    assert(block_can_commit_spec(dag, n_spec, bref, decision_round, boost_round));
                    assert(first_committable_from(dag, n_spec, lbs, decision_round, boost_round, i as int)
                        == Some(lbs[i as int]));
                }
                return LeaderStatus::Commit(b.duplicate());
            }
            assert(!block_can_commit_spec(dag, n_spec, bref, decision_round, boost_round));
            i = i + 1;
        }
        LeaderStatus::Undecided(leader, round)
    }

    /// Resolve the slot `(leader, round)` by reference to later, already
    /// evaluated leader slots: the indirect decision rule. `laters` holds the
    /// statuses of later slots in the order the universal committer produced
    /// them, highest round first.
    pub fn try_indirect_decide(
        &self,
        store: &BlockStore,
        leader: AuthorityIndex,
        round: RoundNumber,
        laters: &Vec<LeaderStatus>,
    ) -> (status: LeaderStatus)
        requires
            store.inv(),
            self.valid(),
            round <= MAX_ROUND,
        ensures
            status@ == indirect_decide_spec(
                store.dag(),
                self.options_spec().wave_length,
                leader,
                round,
                laters.deep_view(),
            ),
    {
        let ghost dag = store.dag();
        let ghost lseq = laters.deep_view();
        let w = self.options.wave_length;
        let mut i: usize = laters.len();
        proof {
            assert(lseq.take(i as int) =~= lseq);
        }
        while i > 0
            invariant
                i <= laters@.len(),
                store.inv(),
                self.valid(),
                dag == store.dag(),
                w == self.options_spec().wave_length,
                round <= MAX_ROUND,
                lseq == laters.deep_view(),
                indirect_decide_spec(dag, w, leader, round, lseq) == indirect_decide_spec(
                    dag,
                    w,
                    leader,
                    round,
                    lseq.take(i as int),
                ),
            decreases i,
        {
            proof {
                assert(lseq.take(i as int).drop_last() =~= lseq.take(i - 1));
                assert(lseq.take(i as int).last() == lseq[i - 1]);
            }
            let s = &laters[i - 1];
            assert(s@ == lseq[i - 1]);
            if s.round() >= round + w {
                match s {
                    LeaderStatus::Commit(anchor) => {
                        return self.decide_leader_from_anchor(store, anchor, leader, round);
                    },
                    LeaderStatus::Skip(_, _) => {},
                    LeaderStatus::Undecided(_, _) => {
                        return LeaderStatus::Undecided(leader, round);
                    },
                }
            }
            i = i - 1;
        }
        proof {
            assert(lseq.take(0) =~= Seq::<StatusView>::empty());
        }
        LeaderStatus::Undecided(leader, round)
    }

    /// Settle the slot `(leader, round)` against a committed later leader:
    /// commit the first leader block in the anchor's causal history, or skip
    /// the slot if the anchor's history holds none.
    fn decide_leader_from_anchor(
        &self,
        store: &BlockStore,
        anchor: &StatementBlock,
        leader: AuthorityIndex,
        round: RoundNumber,
    ) -> (status: LeaderStatus)
        requires
            store.inv(),
            self.valid(),
            anchor@.reference.round > round,
        ensures
            status@ == match first_linked_from(
                store.dag(),
                blocks_at_authority_round_spec(store.dag(), leader, round),
                anchor@.reference,
                0,
            ) {
                Some(b) => StatusView::Commit { block: b },
                None => StatusView::Skip { authority: leader, round },
            },
    {
        let ghost dag = store.dag();
        let leader_blocks = store.get_blocks_at_authority_round(leader, round);
        let ghost lbs = blocks_at_authority_round_spec(dag, leader, round);
        proof {
            lemma_blocks_at_authority_round_members(dag, leader, round);
        }
        let m = leader_blocks.len();
        let mut i: usize = 0;
        while i < m
            invariant
                i <= m,
                m == lbs.len(),
                store.inv(),
                dag == store.dag(),
                anchor@.reference.round > round,
                leader_blocks.deep_view() == lbs,
                lbs == blocks_at_authority_round_spec(dag, leader, round),
                forall|j: int| 0 <= j < lbs.len() ==> store.dag().contains(#[trigger] lbs[j]),
                forall|j: int| 0 <= j < lbs.len() ==> (#[trigger] lbs[j]).reference.round == round,
                first_linked_from(dag, lbs, anchor@.reference, 0) == first_linked_from(
                    dag,
                    lbs,
                    anchor@.reference,
                    i as int,
                ),
            decreases m - i,
        {
            let b = &leader_blocks[i];
            assert(b@ == lbs[i as int]);
            let linked = if store.block_exists(anchor.reference()) {
                proof {
                    let j = choose|j: int| 0 <= j < dag.len() && dag[j] == lbs[i as int];
                    assert(dag[j].reference == lbs[i as int].reference);
                    assert(contains_ref(dag, lbs[i as int].reference));
                }
                store.linked(anchor, b)
            } else {
                proof {
                    assert(anchor@.reference != lbs[i as int].reference);
                    assert(!linked_spec(dag, anchor@.reference, lbs[i as int].reference));
                }
                false
            };
            if linked {
                proof {
                    assert(first_linked_from(dag, lbs, anchor@.reference, i as int) == Some(
                        lbs[i as int],
                    ));
                }
                return LeaderStatus::Commit(b.duplicate());
            }
            i = i + 1;
        }
        LeaderStatus::Skip(leader, round)
    }

    /// The leader slot this committer handles at `round`, if any.
    pub fn elect_leader(&self, round: RoundNumber) -> (leader: Option<AuthorityIndex>)
        requires
            self.valid(),
            round <= MAX_ROUND,
        ensures
            leader == elect_leader_opt_spec(
                self.options_spec().wave_length as int,
                self.options_spec().round_offset as int,
                self.options_spec().leader_offset as int,
                self.committee_spec().len_spec(),
                round as int,
            ),
    {
        let o = self.options.round_offset;
        let w = self.options.wave_length;
        if round >= o && (round - o) % w == 0 {
            Some(self.committee.elect_leader(round + self.options.leader_offset))
        } else {
            None
        }
    }
}

} // verus!
