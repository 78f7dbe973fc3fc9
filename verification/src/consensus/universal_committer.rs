use vstd::prelude::*;
use crate::block_store::{dag_well_formed, highest_round_spec, BlockStore, MAX_ROUND};
use crate::committee::{Committee, MAX_COMMITTEE_SIZE};
use crate::consensus::base_committer::{
    direct_decide_spec, elect_leader_opt_spec, indirect_decide_spec, BaseCommitter,
    BaseCommitterOptions,
};
use crate::consensus::{LeaderStatus, StatusView, DEFAULT_WAVE_LENGTH};
use crate::types::{AuthorityIndex, BlockReference, BlockView, RoundNumber};

verus! {

/// One cached decision: the fate of the leader slot `(authority, round)`.
struct MemoEntry {
    authority: AuthorityIndex,
    round: RoundNumber,
    status: LeaderStatus,
}

/// The image of one cache entry.
spec fn memo_entry_view(e: MemoEntry) -> (AuthorityIndex, RoundNumber, StatusView) {
    (e.authority, e.round, e.status@)
}

/// The cache as a mapping from slots to decisions; later entries win.
pub open spec fn memo_map_from(entries: Seq<(AuthorityIndex, RoundNumber, StatusView)>) -> Map<
    (AuthorityIndex, RoundNumber),
    StatusView,
>
    decreases entries.len(),
{
    if entries.len() == 0 {
        Map::empty()
    } else {
        memo_map_from(entries.drop_last()).insert(
            (entries.last().0, entries.last().1),
            entries.last().2,
        )
    }
}

/// The status a slot evaluates to: the cached decision if one exists, else
/// the direct rule, else the indirect rule over the statuses of the slots
/// already evaluated (`laters`).
pub open spec fn evaluate_slot_spec(
    dag: Seq<BlockView>,
    c: BaseCommitter,
    memo: Map<(AuthorityIndex, RoundNumber), StatusView>,
    leader: AuthorityIndex,
    r: RoundNumber,
    laters: Seq<StatusView>,
) -> StatusView {
    if memo.contains_key((leader, r)) {
        memo[(leader, r)]
    } else {
        let d = direct_decide_spec(
            dag,
            c.committee_spec().len_spec(),
            c.options_spec().wave_length,
            leader,
            r,
        );
        if d.is_decided() {
            d
        } else {
            indirect_decide_spec(dag, c.options_spec().wave_length, leader, r, laters)
        }
    }
}

/// Evaluate the committers `j, j - 1, ..., 0` for round `r`, appending each
/// produced status to `acc` and caching each fresh decision in `memo`.
pub open spec fn eval_round_spec(
    dag: Seq<BlockView>,
    cs: Seq<BaseCommitter>,
    memo: Map<(AuthorityIndex, RoundNumber), StatusView>,
    acc: Seq<StatusView>,
    r: RoundNumber,
    j: int,
) -> (Seq<StatusView>, Map<(AuthorityIndex, RoundNumber), StatusView>)
    decreases j + 1,
{
    if j < 0 || j >= cs.len() {
        (acc, memo)
    } else {
        let c = cs[j];
        let next = match elect_leader_opt_spec(
            c.options_spec().wave_length as int,
            c.options_spec().round_offset as int,
            c.options_spec().leader_offset as int,
            c.committee_spec().len_spec(),
            r as int,
        ) {
            Some(leader) => {
                let s = evaluate_slot_spec(dag, c, memo, leader, r, acc);
                (
                    acc.push(s),
                    if s.is_decided() && !memo.contains_key((leader, r)) {
                        memo.insert((leader, r), s)
                    } else {
                        memo
                    },
                )
            },
            None => (acc, memo),
        };
        eval_round_spec(dag, cs, next.1, next.0, r, j - 1)
    }
}

/// Evaluate the rounds `hi, hi - 1, ..., lo`, skipping any round whose
/// booster round lies beyond `threshold`.
pub open spec fn eval_rounds_spec(
    dag: Seq<BlockView>,
    cs: Seq<BaseCommitter>,
    memo: Map<(AuthorityIndex, RoundNumber), StatusView>,
    acc: Seq<StatusView>,
    hi: int,
    lo: int,
    threshold: RoundNumber,
    wave: RoundNumber,
) -> (Seq<StatusView>, Map<(AuthorityIndex, RoundNumber), StatusView>)
    decreases hi - lo + 1,
{
    if hi < lo {
        (acc, memo)
    } else {
        let next = if hi + wave > threshold {
            (acc, memo)
        } else {
            eval_round_spec(dag, cs, memo, acc, hi as RoundNumber, cs.len() - 1)
        };
        eval_rounds_spec(dag, cs, next.1, next.0, hi - 1, lo, threshold, wave)
    }
}

/// Whether a status speaks of the slot `(last.authority, last.round)`.
pub open spec fn matches_last(s: StatusView, last: BlockReference) -> bool {
    s.round() == last.round && s.authority() == last.authority
}

/// The position in `acc` of the entry for the last decided slot. The
/// statuses sit in `acc` highest round first, and the consumer reads them
/// ascending, so the entry read first is the last match in `acc`. `-1` when
/// no entry matches.
pub open spec fn find_last_match(acc: Seq<StatusView>, last: BlockReference) -> int
    decreases acc.len(),
{
    if acc.len() == 0 {
        -1
    } else if matches_last(acc.last(), last) {
        acc.len() - 1
    } else {
        find_last_match(acc.drop_last(), last)
    }
}

/// Walk `acc` downward from `p` (ascending rounds), drop genesis entries,
/// and keep decided statuses until the first undecided one.
pub open spec fn take_decided(acc: Seq<StatusView>, p: int) -> Seq<StatusView>
    decreases p + 1,
{
    if p < 0 || p >= acc.len() {
        Seq::empty()
    } else {
        let s = acc[p];
        if s.round() == 0 {
            take_decided(acc, p - 1)
        } else if s.is_decided() {
            seq![s] + take_decided(acc, p - 1)
        } else {
            Seq::empty()
        }
    }
}

/// Linearize the evaluated statuses into the committed sequence: everything
/// at or before the last decided slot is dropped, genesis entries are
/// dropped, and the first undecided entry truncates the result, so the
/// returned sequence is always gap-free.
pub open spec fn linearize_spec(acc: Seq<StatusView>, last: BlockReference) -> Seq<StatusView> {
    let p = find_last_match(acc, last);
    if p < 0 {
        Seq::empty()
    } else {
        take_decided(acc, p - 1)
    }
}

/// What `try_commit` returns: nothing before the first wave completes, else
/// the linearization of the evaluated statuses of the rounds between the
/// last decided one and the highest known one.
pub open spec fn try_commit_spec(
    dag: Seq<BlockView>,
    cs: Seq<BaseCommitter>,
    memo: Map<(AuthorityIndex, RoundNumber), StatusView>,
    last: BlockReference,
    threshold: RoundNumber,
    wave: RoundNumber,
) -> Seq<StatusView> {
    if highest_round_spec(dag) < wave {
        Seq::empty()
    } else {
        linearize_spec(
            eval_rounds_spec(
                dag,
                cs,
                memo,
                Seq::empty(),
                highest_round_spec(dag),
                last.round as int,
                threshold,
                wave,
            ).0,
            last,
        )
    }
}

/// The cache `try_commit` leaves behind.
pub open spec fn try_commit_memo_spec(
    dag: Seq<BlockView>,
    cs: Seq<BaseCommitter>,
    memo: Map<(AuthorityIndex, RoundNumber), StatusView>,
    last: BlockReference,
    threshold: RoundNumber,
    wave: RoundNumber,
) -> Map<(AuthorityIndex, RoundNumber), StatusView> {
    if highest_round_spec(dag) < wave {
        memo
    } else {
        eval_rounds_spec(
            dag,
            cs,
            memo,
            Seq::empty(),
            highest_round_spec(dag),
            last.round as int,
            threshold,
            wave,
        ).1
    }
}

/// The leaders the configured committers expect at `round`, committer by
/// committer, starting at committer `i`.
pub open spec fn leaders_spec(cs: Seq<BaseCommitter>, round: RoundNumber, i: int) -> Seq<
    AuthorityIndex,
>
    decreases cs.len() - i,
{
    if i < 0 || i >= cs.len() {
        Seq::empty()
    } else {
        let rest = leaders_spec(cs, round, i + 1);
        match elect_leader_opt_spec(
            cs[i].options_spec().wave_length as int,
            cs[i].options_spec().round_offset as int,
            cs[i].options_spec().leader_offset as int,
            cs[i].committee_spec().len_spec(),
            round as int,
        ) {
            Some(leader) => seq![leader] + rest,
            None => rest,
        }
    }
}

/// `m1` is contained in `m2`, with agreeing values.
pub open spec fn memo_submap(
    m1: Map<(AuthorityIndex, RoundNumber), StatusView>,
    m2: Map<(AuthorityIndex, RoundNumber), StatusView>,
) -> bool {
    forall|k: (AuthorityIndex, RoundNumber)|
        m1.contains_key(k) ==> #[trigger] m2.contains_key(k) && m2[k] == m1[k]
}

/// No two committers handle the same leader slot of any round.
pub open spec fn distinct_slots(cs: Seq<BaseCommitter>) -> bool {
    forall|r: RoundNumber, i: int, j: int|
        0 <= i < j < cs.len() ==> match (
            #[trigger] elect_of(cs, i, r),
            #[trigger] elect_of(cs, j, r),
        ) {
            (Some(a), Some(b)) => a != b,
            _ => true,
        }
}

/// The leader slot committer `i` handles at round `r`.
pub open spec fn elect_of(cs: Seq<BaseCommitter>, i: int, r: RoundNumber) -> Option<AuthorityIndex> {
    elect_leader_opt_spec(
        cs[i].options_spec().wave_length as int,
        cs[i].options_spec().round_offset as int,
        cs[i].options_spec().leader_offset as int,
        cs[i].committee_spec().len_spec(),
        r as int,
    )
}

/// The cache only ever grows while a round is evaluated.
proof fn lemma_round_memo_monotone(
    dag: Seq<BlockView>,
    cs: Seq<BaseCommitter>,
    memo: Map<(AuthorityIndex, RoundNumber), StatusView>,
    acc: Seq<StatusView>,
    r: RoundNumber,
    j: int,
)
    ensures
        memo_submap(memo, eval_round_spec(dag, cs, memo, acc, r, j).1),
    decreases j + 1,
{
    if !(j < 0 || j >= cs.len()) {
        match elect_of(cs, j, r) {
            Some(leader) => {
                let s = evaluate_slot_spec(dag, cs[j], memo, leader, r, acc);
                let m2 = if s.is_decided() && !memo.contains_key((leader, r)) {
                    memo.insert((leader, r), s)
                } else {
                    memo
                };
                lemma_round_memo_monotone(dag, cs, m2, acc.push(s), r, j - 1);
            },
            None => {
                lemma_round_memo_monotone(dag, cs, memo, acc, r, j - 1);
            },
        }
    }
}

/// A round's evaluation caches only slots of that round, each handled by
/// one of the committers.
proof fn lemma_round_memo_dom(
    dag: Seq<BlockView>,
    cs: Seq<BaseCommitter>,
    memo: Map<(AuthorityIndex, RoundNumber), StatusView>,
    acc: Seq<StatusView>,
    r: RoundNumber,
    j: int,
)
    ensures
        forall|k: (AuthorityIndex, RoundNumber)|
            #[trigger] eval_round_spec(dag, cs, memo, acc, r, j).1.contains_key(k)
                && !memo.contains_key(k) ==> k.1 == r && exists|jj: int|
                0 <= jj <= j && jj < cs.len() && #[trigger] elect_of(cs, jj, r) == Some(k.0),
    decreases j + 1,
{
    if !(j < 0 || j >= cs.len()) {
        match elect_of(cs, j, r) {
            Some(leader) => {
                let s = evaluate_slot_spec(dag, cs[j], memo, leader, r, acc);
                let m2 = if s.is_decided() && !memo.contains_key((leader, r)) {
                    memo.insert((leader, r), s)
                } else {
                    memo
                };
                lemma_round_memo_dom(dag, cs, m2, acc.push(s), r, j - 1);
                assert forall|k: (AuthorityIndex, RoundNumber)|
                    #[trigger] eval_round_spec(dag, cs, memo, acc, r, j).1.contains_key(k)
                        && !memo.contains_key(k) implies k.1 == r && exists|jj: int|
                        0 <= jj <= j && jj < cs.len() && #[trigger] elect_of(cs, jj, r) == Some(
                            k.0,
                        ) by {
                    if m2.contains_key(k) {
                        assert(k == (leader, r));
                        assert(0 <= j <= j && j < cs.len() && elect_of(cs, j, r) == Some(k.0));
                    } else {
                        assert(eval_round_spec(dag, cs, m2, acc.push(s), r, j - 1).1.contains_key(
                            k,
                        ));
                        let jj = choose|jj: int|
                            0 <= jj <= j - 1 && jj < cs.len() && #[trigger] elect_of(cs, jj, r)
                                == Some(k.0);
                        assert(0 <= jj <= j && jj < cs.len() && elect_of(cs, jj, r) == Some(k.0));
                    }
                }
            },
            None => {
                lemma_round_memo_dom(dag, cs, memo, acc, r, j - 1);
                assert forall|k: (AuthorityIndex, RoundNumber)|
                    #[trigger] eval_round_spec(dag, cs, memo, acc, r, j).1.contains_key(k)
                        && !memo.contains_key(k) implies k.1 == r && exists|jj: int|
                        0 <= jj <= j && jj < cs.len() && #[trigger] elect_of(cs, jj, r) == Some(
                            k.0,
                        ) by {
                    assert(eval_round_spec(dag, cs, memo, acc, r, j - 1).1.contains_key(k));
                    let jj = choose|jj: int|
                        0 <= jj <= j - 1 && jj < cs.len() && #[trigger] elect_of(cs, jj, r) == Some(
                            k.0,
                        );
                    assert(0 <= jj <= j && jj < cs.len() && elect_of(cs, jj, r) == Some(k.0));
                }
            },
        }
    }
}

/// Whole-scan versions of the two facts above: the cache grows, and only
/// with slots of the scanned rounds.
proof fn lemma_rounds_memo_shape(
    dag: Seq<BlockView>,
    cs: Seq<BaseCommitter>,
    memo: Map<(AuthorityIndex, RoundNumber), StatusView>,
    acc: Seq<StatusView>,
    hi: int,
    lo: int,
    threshold: RoundNumber,
    wave: RoundNumber,
)
    requires
        0 <= lo,
        hi <= u64::MAX,
    ensures
        memo_submap(memo, eval_rounds_spec(dag, cs, memo, acc, hi, lo, threshold, wave).1),
        forall|k: (AuthorityIndex, RoundNumber)|
            #[trigger] eval_rounds_spec(dag, cs, memo, acc, hi, lo, threshold, wave).1.contains_key(
                k,
            ) && !memo.contains_key(k) ==> lo <= k.1 <= hi,
    decreases hi - lo + 1,
{
    if hi >= lo {
        let next = if hi + wave > threshold {
            (acc, memo)
        } else {
            eval_round_spec(dag, cs, memo, acc, hi as RoundNumber, cs.len() - 1)
        };
        if hi + wave <= threshold {
            lemma_round_memo_monotone(dag, cs, memo, acc, hi as RoundNumber, cs.len() - 1);
            lemma_round_memo_dom(dag, cs, memo, acc, hi as RoundNumber, cs.len() - 1);
        }
        lemma_rounds_memo_shape(dag, cs, next.1, next.0, hi - 1, lo, threshold, wave);
    }
}

/// The indirect rule never reads statuses of rounds below its own decision
/// round: appending such statuses changes nothing.
proof fn lemma_indirect_ignores_low(
    dag: Seq<BlockView>,
    w: RoundNumber,
    leader: AuthorityIndex,
    round: RoundNumber,
    laters: Seq<StatusView>,
    longer: Seq<StatusView>,
)
    requires
        laters.len() <= longer.len(),
        longer.take(laters.len() as int) == laters,
        forall|i: int|
            laters.len() <= i < longer.len() ==> (#[trigger] longer[i]).round() < round + w,
    ensures
        indirect_decide_spec(dag, w, leader, round, longer) == indirect_decide_spec(
            dag,
            w,
            leader,
            round,
            laters,
        ),
    decreases longer.len(),
{
    if longer.len() > laters.len() {
        assert(longer.last().round() < round + w);
        assert(longer.drop_last().take(laters.len() as int) =~= laters);
        lemma_indirect_ignores_low(dag, w, leader, round, laters, longer.drop_last());
    } else {
        assert(longer =~= laters);
    }
}

/// Replaying one round's evaluation against any cache that extends its
/// results (with nothing else at this round) reproduces the same statuses
/// and leaves the cache unchanged.
proof fn lemma_round_replay(
    dag: Seq<BlockView>,
    cs: Seq<BaseCommitter>,
    memo: Map<(AuthorityIndex, RoundNumber), StatusView>,
    full: Map<(AuthorityIndex, RoundNumber), StatusView>,
    acc: Seq<StatusView>,
    r: RoundNumber,
    j: int,
)
    requires
        distinct_slots(cs),
        memo_submap(eval_round_spec(dag, cs, memo, acc, r, j).1, full),
        forall|k: (AuthorityIndex, RoundNumber)|
            #[trigger] full.contains_key(k) && !eval_round_spec(
                dag,
                cs,
                memo,
                acc,
                r,
                j,
            ).1.contains_key(k) ==> k.1 != r,
    ensures
        eval_round_spec(dag, cs, full, acc, r, j).0 == eval_round_spec(dag, cs, memo, acc, r, j).0,
        eval_round_spec(dag, cs, full, acc, r, j).1 == full,
    decreases j + 1,
{
    if j < 0 || j >= cs.len() {
    } else {
        let m1_final = eval_round_spec(dag, cs, memo, acc, r, j).1;
        match elect_of(cs, j, r) {
            Some(leader) => {
                let k = (leader, r);
                let s1 = evaluate_slot_spec(dag, cs[j], memo, leader, r, acc);
                let m2 = if s1.is_decided() && !memo.contains_key(k) {
                    memo.insert(k, s1)
                } else {
                    memo
                };
                lemma_round_memo_monotone(dag, cs, m2, acc.push(s1), r, j - 1);
                // the status replayed against `full` is the same
                let s2 = evaluate_slot_spec(dag, cs[j], full, leader, r, acc);
                if memo.contains_key(k) {
                    assert(m2.contains_key(k));
                    assert(m1_final.contains_key(k) && m1_final[k] == memo[k]);
                    assert(full.contains_key(k) && full[k] == memo[k]);
                    assert(s2 == s1);
                } else if s1.is_decided() {
                    assert(m2.contains_key(k) && m2[k] == s1);
                    assert(m1_final.contains_key(k) && m1_final[k] == s1);
                    assert(full.contains_key(k) && full[k] == s1);
                    assert(s2 == s1);
                } else {
                    // undecided and uncached: no committer below caches this
                    // slot either, so `full` has nothing for it
                    assert(m2 == memo);
                    if full.contains_key(k) {
                        assert(m1_final.contains_key(k));
                        lemma_round_memo_dom(dag, cs, m2, acc.push(s1), r, j - 1);
                        assert(!m2.contains_key(k));
                        let jj = choose|jj: int|
                            0 <= jj <= j - 1 && jj < cs.len() && #[trigger] elect_of(cs, jj, r)
                                == Some(k.0);
                        assert(elect_of(cs, jj, r) == Some(leader));
                        assert(elect_of(cs, j, r) == Some(leader));
                        assert(false);
                    }
                    assert(s2 == s1);
                }
                lemma_round_replay(dag, cs, m2, full, acc.push(s1), r, j - 1);
                // replaying slot `j` against `full` neither changes the
                // cache (`s2` decided implies `full` knows the slot)
                if s2.is_decided() && !full.contains_key(k) {
                    assert(m2.contains_key(k) || s1.is_decided());
                    assert(false);
                }
            },
            None => {
                lemma_round_replay(dag, cs, memo, full, acc, r, j - 1);
            },
        }
    }
}

/// Replaying a whole scan against any cache that extends its results (with
/// nothing else at the scanned rounds) reproduces the same statuses and
/// leaves the cache unchanged.
proof fn lemma_rounds_replay(
    dag: Seq<BlockView>,
    cs: Seq<BaseCommitter>,
    memo: Map<(AuthorityIndex, RoundNumber), StatusView>,
    full: Map<(AuthorityIndex, RoundNumber), StatusView>,
    acc: Seq<StatusView>,
    hi: int,
    lo: int,
    threshold: RoundNumber,
    wave: RoundNumber,
)
    requires
        distinct_slots(cs),
        0 <= lo,
        hi <= u64::MAX,
        memo_submap(eval_rounds_spec(dag, cs, memo, acc, hi, lo, threshold, wave).1, full),
        forall|k: (AuthorityIndex, RoundNumber)|
            #[trigger] full.contains_key(k) && !eval_rounds_spec(
                dag,
                cs,
                memo,
                acc,
                hi,
                lo,
                threshold,
                wave,
            ).1.contains_key(k) ==> !(lo <= k.1 <= hi),
    ensures
        eval_rounds_spec(dag, cs, full, acc, hi, lo, threshold, wave).0 == eval_rounds_spec(
            dag,
            cs,
            memo,
            acc,
            hi,
            lo,
            threshold,
            wave,
        ).0,
        eval_rounds_spec(dag, cs, full, acc, hi, lo, threshold, wave).1 == full,
    decreases hi - lo + 1,
{
    if hi < lo {
    } else {
        let m_all = eval_rounds_spec(dag, cs, memo, acc, hi, lo, threshold, wave).1;
        if hi + wave > threshold {
            lemma_rounds_replay(dag, cs, memo, full, acc, hi - 1, lo, threshold, wave);
        } else {
            let next = eval_round_spec(dag, cs, memo, acc, hi as RoundNumber, cs.len() - 1);
            // facts feeding the per-round replay
            lemma_rounds_memo_shape(dag, cs, next.1, next.0, hi - 1, lo, threshold, wave);
            lemma_round_memo_dom(dag, cs, memo, acc, hi as RoundNumber, cs.len() - 1);
            assert forall|k: (AuthorityIndex, RoundNumber)|
                #[trigger] full.contains_key(k) && !next.1.contains_key(k) implies k.1
                != hi as RoundNumber by {
                if m_all.contains_key(k) {
                    assert(lo <= k.1 <= hi - 1);
                } else {
                    assert(!(lo <= k.1 <= hi));
                }
            }
            assert(memo_submap(next.1, m_all));
            assert forall|k: (AuthorityIndex, RoundNumber)| next.1.contains_key(k)
                implies #[trigger] full.contains_key(k) && full[k] == next.1[k] by {
                assert(m_all.contains_key(k) && m_all[k] == next.1[k]);
            }
            assert(memo_submap(next.1, full));
            lemma_round_replay(dag, cs, memo, full, acc, hi as RoundNumber, cs.len() - 1);
            lemma_rounds_replay(dag, cs, next.1, full, next.0, hi - 1, lo, threshold, wave);
        }
    }
}

/// The cache speaks the truth about its keys: the decision stored for a
/// slot is a settled decision about exactly that slot.
pub open spec fn memo_wf(memo: Map<(AuthorityIndex, RoundNumber), StatusView>) -> bool {
    forall|k: (AuthorityIndex, RoundNumber)|
        #[trigger] memo.contains_key(k) ==> memo[k].is_decided() && memo[k].authority() == k.0
            && memo[k].round() == k.1
}

/// The direct rule decides about exactly the slot it was asked about.
proof fn lemma_direct_slot_shape(
    dag: Seq<BlockView>,
    n: int,
    w: RoundNumber,
    leader: AuthorityIndex,
    round: RoundNumber,
)
    ensures
        direct_decide_spec(dag, n, w, leader, round).authority() == leader,
        direct_decide_spec(dag, n, w, leader, round).round() == round,
{
    let lbs = crate::block_store::blocks_at_authority_round_spec(dag, leader, round);
    crate::block_store::lemma_blocks_at_authority_round_members(dag, leader, round);
    lemma_first_committable_member(
        dag,
        n,
        lbs,
        (round + w - 1) as RoundNumber,
        (round + w) as RoundNumber,
        0,
    );
}

/// A found committable block is one of the searched blocks.
proof fn lemma_first_committable_member(
    dag: Seq<BlockView>,
    n: int,
    lbs: Seq<BlockView>,
    decision_round: RoundNumber,
    boost_round: RoundNumber,
    i: int,
)
    ensures
        crate::consensus::base_committer::first_committable_from(
            dag,
            n,
            lbs,
            decision_round,
            boost_round,
            i,
        ) matches Some(b) ==> lbs.contains(b),
    decreases lbs.len() - i,
{
    if 0 <= i < lbs.len() {
        lemma_first_committable_member(dag, n, lbs, decision_round, boost_round, i + 1);
        assert(0 <= i < lbs.len() && lbs[i] == lbs[i]);
    }
}

/// A found linked block is one of the searched blocks.
proof fn lemma_first_linked_member(
    dag: Seq<BlockView>,
    lbs: Seq<BlockView>,
    anchor: BlockReference,
    i: int,
)
    ensures
        crate::consensus::base_committer::first_linked_from(dag, lbs, anchor, i) matches Some(b)
            ==> lbs.contains(b),
    decreases lbs.len() - i,
{
    if 0 <= i < lbs.len() {
        lemma_first_linked_member(dag, lbs, anchor, i + 1);
        assert(0 <= i < lbs.len() && lbs[i] == lbs[i]);
    }
}

/// The indirect rule decides about exactly the slot it was asked about.
proof fn lemma_indirect_slot_shape(
    dag: Seq<BlockView>,
    w: RoundNumber,
    leader: AuthorityIndex,
    round: RoundNumber,
    laters: Seq<StatusView>,
)
    ensures
        indirect_decide_spec(dag, w, leader, round, laters).authority() == leader,
        indirect_decide_spec(dag, w, leader, round, laters).round() == round,
    decreases laters.len(),
{
    let lbs = crate::block_store::blocks_at_authority_round_spec(dag, leader, round);
    crate::block_store::lemma_blocks_at_authority_round_members(dag, leader, round);
    if laters.len() > 0 {
        lemma_indirect_slot_shape(dag, w, leader, round, laters.drop_last());
        match laters.last() {
            StatusView::Commit { block } => {
                lemma_first_linked_member(dag, lbs, block.reference, 0);
            },
            _ => {},
        }
    }
}

/// A slot evaluates to a status about exactly that slot.
proof fn lemma_slot_shape(
    dag: Seq<BlockView>,
    c: BaseCommitter,
    memo: Map<(AuthorityIndex, RoundNumber), StatusView>,
    leader: AuthorityIndex,
    r: RoundNumber,
    laters: Seq<StatusView>,
)
    requires
        memo_wf(memo),
    ensures
        evaluate_slot_spec(dag, c, memo, leader, r, laters).authority() == leader,
        evaluate_slot_spec(dag, c, memo, leader, r, laters).round() == r,
{
    lemma_direct_slot_shape(
        dag,
        c.committee_spec().len_spec(),
        c.options_spec().wave_length,
        leader,
        r,
    );
    lemma_indirect_slot_shape(dag, c.options_spec().wave_length, leader, r, laters);
}

/// One round's evaluation extends the statuses with entries about that
/// round only, one per distinctly led slot, and keeps the cache truthful.
proof fn lemma_round_acc_shape(
    dag: Seq<BlockView>,
    cs: Seq<BaseCommitter>,
    memo: Map<(AuthorityIndex, RoundNumber), StatusView>,
    acc: Seq<StatusView>,
    r: RoundNumber,
    j: int,
)
    requires
        memo_wf(memo),
        distinct_slots(cs),
    ensures
        ({
            let res = eval_round_spec(dag, cs, memo, acc, r, j);
            &&& memo_wf(res.1)
            &&& res.0.len() >= acc.len()
            &&& res.0.take(acc.len() as int) == acc
            &&& forall|i: int|
                acc.len() <= i < res.0.len() ==> (#[trigger] res.0[i]).round() == r
            &&& forall|i1: int, i2: int|
                acc.len() <= i1 < i2 < res.0.len() ==> (#[trigger] res.0[i1]).authority() != (
                #[trigger] res.0[i2]).authority()
            &&& forall|i: int|
                acc.len() <= i < res.0.len() ==> exists|jj: int|
                    0 <= jj <= j && jj < cs.len() && #[trigger] elect_of(cs, jj, r) == Some(
                        (#[trigger] res.0[i]).authority(),
                    )
        }),
    decreases j + 1,
{
    let res = eval_round_spec(dag, cs, memo, acc, r, j);
    if j < 0 || j >= cs.len() {
        assert(res.0.take(acc.len() as int) =~= acc);
    } else {
        match elect_of(cs, j, r) {
            Some(leader) => {
                let s = evaluate_slot_spec(dag, cs[j], memo, leader, r, acc);
                lemma_slot_shape(dag, cs[j], memo, leader, r, acc);
                let m2 = if s.is_decided() && !memo.contains_key((leader, r)) {
                    memo.insert((leader, r), s)
                } else {
                    memo
                };
                assert(memo_wf(m2));
                lemma_round_acc_shape(dag, cs, m2, acc.push(s), r, j - 1);
                let res2 = eval_round_spec(dag, cs, m2, acc.push(s), r, j - 1);
                assert(res2.0.take(acc.push(s).len() as int) == acc.push(s));
                assert forall|i: int| 0 <= i < acc.len() implies res.0.take(acc.len() as int)[i]
                    == acc[i] by {
                    assert(res2.0.take(acc.push(s).len() as int)[i] == acc.push(s)[i]);
                }
                assert(res.0.take(acc.len() as int) =~= acc);
                assert(res.0[acc.len() as int] == s);
                assert forall|i1: int, i2: int|
                    acc.len() <= i1 < i2 < res.0.len() implies (#[trigger] res.0[i1]).authority()
                    != (#[trigger] res.0[i2]).authority() by {
                    if i1 == acc.len() {
                        let jj = choose|jj: int|
                            0 <= jj <= j - 1 && jj < cs.len() && #[trigger] elect_of(cs, jj, r)
                                == Some(res.0[i2].authority());
                        assert(elect_of(cs, j, r) == Some(s.authority()));
                    }
                }
                assert forall|i: int|
                    acc.len() <= i < res.0.len() implies exists|jj: int|
                        0 <= jj <= j && jj < cs.len() && #[trigger] elect_of(cs, jj, r) == Some(
                            (#[trigger] res.0[i]).authority(),
                        ) by {
                    if i == acc.len() {
                        assert(0 <= j <= j && j < cs.len() && elect_of(cs, j, r) == Some(
                            res.0[i].authority(),
                        ));
                    } else {
                        let jj = choose|jj: int|
                            0 <= jj <= j - 1 && jj < cs.len() && #[trigger] elect_of(cs, jj, r)
                                == Some(res.0[i].authority());
                        assert(0 <= jj <= j && jj < cs.len() && elect_of(cs, jj, r) == Some(
                            res.0[i].authority(),
                        ));
                    }
                }
            },
            None => {
                lemma_round_acc_shape(dag, cs, memo, acc, r, j - 1);
                assert forall|i: int|
                    acc.len() <= i < res.0.len() implies exists|jj: int|
                        0 <= jj <= j && jj < cs.len() && #[trigger] elect_of(cs, jj, r) == Some(
                            (#[trigger] res.0[i]).authority(),
                        ) by {
                    let jj = choose|jj: int|
                        0 <= jj <= j - 1 && jj < cs.len() && #[trigger] elect_of(cs, jj, r) == Some(
                            res.0[i].authority(),
                        );
                    assert(0 <= jj <= j && jj < cs.len() && elect_of(cs, jj, r) == Some(
                        res.0[i].authority(),
                    ));
                }
            },
        }
    }
}

/// A whole scan extends the statuses with entries of the scanned rounds,
/// highest round first, never naming one leader slot twice, and keeps the
/// cache truthful.
proof fn lemma_rounds_acc_shape(
    dag: Seq<BlockView>,
    cs: Seq<BaseCommitter>,
    memo: Map<(AuthorityIndex, RoundNumber), StatusView>,
    acc: Seq<StatusView>,
    hi: int,
    lo: int,
    threshold: RoundNumber,
    wave: RoundNumber,
)
    requires
        memo_wf(memo),
        distinct_slots(cs),
        0 <= lo,
        hi <= u64::MAX,
    ensures
        ({
            let res = eval_rounds_spec(dag, cs, memo, acc, hi, lo, threshold, wave);
            &&& memo_wf(res.1)
            &&& res.0.len() >= acc.len()
            &&& res.0.take(acc.len() as int) == acc
            &&& forall|i: int|
                acc.len() <= i < res.0.len() ==> lo <= (#[trigger] res.0[i]).round() <= hi
            &&& forall|i1: int, i2: int|
                acc.len() <= i1 < i2 < res.0.len() ==> (#[trigger] res.0[i1]).round() > (
                #[trigger] res.0[i2]).round() || (res.0[i1].round() == res.0[i2].round()
                    && res.0[i1].authority() != res.0[i2].authority())
        }),
    decreases hi - lo + 1,
{
    let res = eval_rounds_spec(dag, cs, memo, acc, hi, lo, threshold, wave);
    if hi < lo {
        assert(res.0.take(acc.len() as int) =~= acc);
    } else {
        let next = if hi + wave > threshold {
            (acc, memo)
        } else {
            eval_round_spec(dag, cs, memo, acc, hi as RoundNumber, cs.len() - 1)
        };
        if hi + wave <= threshold {
            lemma_round_acc_shape(dag, cs, memo, acc, hi as RoundNumber, cs.len() - 1);
        }
        lemma_rounds_acc_shape(dag, cs, next.1, next.0, hi - 1, lo, threshold, wave);
        assert forall|i: int| 0 <= i < acc.len() implies res.0.take(acc.len() as int)[i] == acc[i] by {
            assert(res.0.take(next.0.len() as int)[i] == next.0[i]);
            if hi + wave <= threshold {
                assert(next.0.take(acc.len() as int)[i] == acc[i]);
            }
        }
        assert(res.0.take(acc.len() as int) =~= acc);
        let mid_len = next.0.len() as int;
        assert forall|i: int| acc.len() <= i < mid_len implies (#[trigger] res.0[i]).round()
            == hi as RoundNumber by {
            assert(res.0.take(mid_len)[i] == next.0[i]);
        }
        assert forall|i: int| acc.len() <= i < res.0.len() implies lo <= (#[trigger] res.0[i]).round()
            <= hi by {
            if i < mid_len {
                assert(res.0[i].round() == hi as RoundNumber);
            }
        }
        assert forall|i1: int, i2: int|
            acc.len() <= i1 < i2 < res.0.len() implies (#[trigger] res.0[i1]).round() > (
            #[trigger] res.0[i2]).round() || (res.0[i1].round() == res.0[i2].round()
                && res.0[i1].authority() != res.0[i2].authority()) by {
            if i2 < mid_len {
                assert(res.0.take(mid_len)[i1] == next.0[i1]);
                assert(res.0.take(mid_len)[i2] == next.0[i2]);
                assert(next.0[i1].round() == hi as RoundNumber);
                assert(next.0[i1].authority() != next.0[i2].authority());
            } else if i1 < mid_len {
                assert(res.0[i1].round() == hi as RoundNumber);
                assert(lo <= res.0[i2].round() <= hi - 1);
            }
        }
    }
}

/// Evaluating down to `mid` and then continuing to `lo` is the same as
/// evaluating down to `lo` in one scan.
proof fn lemma_rounds_compose(
    dag: Seq<BlockView>,
    cs: Seq<BaseCommitter>,
    memo: Map<(AuthorityIndex, RoundNumber), StatusView>,
    acc: Seq<StatusView>,
    hi: int,
    mid: int,
    lo: int,
    threshold: RoundNumber,
    wave: RoundNumber,
)
    requires
        lo <= mid <= hi + 1,
    ensures
        ({
            let first = eval_rounds_spec(dag, cs, memo, acc, hi, mid, threshold, wave);
            eval_rounds_spec(dag, cs, memo, acc, hi, lo, threshold, wave) == eval_rounds_spec(
                dag,
                cs,
                first.1,
                first.0,
                mid - 1,
                lo,
                threshold,
                wave,
            )
        }),
    decreases hi - mid + 1,
{
    if hi >= mid {
        let next = if hi + wave > threshold {
            (acc, memo)
        } else {
            eval_round_spec(dag, cs, memo, acc, hi as RoundNumber, cs.len() - 1)
        };
        lemma_rounds_compose(dag, cs, next.1, next.0, hi - 1, mid, lo, threshold, wave);
    }
}

/// Everything the linearization keeps is a settled decision.
proof fn lemma_take_decided_decided(acc: Seq<StatusView>, p: int)
    ensures
        forall|i: int|
            0 <= i < take_decided(acc, p).len() ==> (#[trigger] take_decided(acc, p)[i]).is_decided(),
    decreases p + 1,
{
    if 0 <= p < acc.len() {
        lemma_take_decided_decided(acc, p - 1);
        let s = acc[p];
        if s.round() == 0 {
            assert forall|i: int|
                0 <= i < take_decided(acc, p).len() implies (#[trigger] take_decided(acc, p)[i]).is_decided() by {
                assert(take_decided(acc, p)[i] == take_decided(acc, p - 1)[i]);
            }
        } else if s.is_decided() {
            assert forall|i: int|
                0 <= i < take_decided(acc, p).len() implies (#[trigger] take_decided(acc, p)[i]).is_decided() by {
                if i == 0 {
                    assert(take_decided(acc, p)[0] == s);
                } else {
                    assert(take_decided(acc, p)[i] == take_decided(acc, p - 1)[i - 1]);
                }
            }
        }
    }
}

/// The commit sequence never holds an unsettled slot: rather than guessing,
/// `try_commit` truncates at the first undecided slot.
pub proof fn lemma_commit_sequence_decided(
    dag: Seq<BlockView>,
    cs: Seq<BaseCommitter>,
    memo: Map<(AuthorityIndex, RoundNumber), StatusView>,
    last: BlockReference,
    threshold: RoundNumber,
    wave: RoundNumber,
)
    ensures
        forall|i: int|
            0 <= i < try_commit_spec(dag, cs, memo, last, threshold, wave).len() ==> (
            #[trigger] try_commit_spec(dag, cs, memo, last, threshold, wave)[i]).is_decided(),
{
    if highest_round_spec(dag) >= wave {
        let acc = eval_rounds_spec(
            dag,
            cs,
            memo,
            Seq::empty(),
            highest_round_spec(dag),
            last.round as int,
            threshold,
            wave,
        ).0;
        let p = find_last_match(acc, last);
        if p >= 0 {
            lemma_take_decided_decided(acc, p - 1);
        }
    }
}

/// No premature commit: before the DAG reaches one full wave no leader can
/// possibly be decided, and `try_commit` returns nothing, whatever the
/// threshold and whatever is cached.
pub proof fn lemma_no_premature_commit(
    dag: Seq<BlockView>,
    cs: Seq<BaseCommitter>,
    memo: Map<(AuthorityIndex, RoundNumber), StatusView>,
    last: BlockReference,
    threshold: RoundNumber,
    wave: RoundNumber,
)
    requires
        highest_round_spec(dag) < wave,
    ensures
        try_commit_spec(dag, cs, memo, last, threshold, wave) == Seq::<StatusView>::empty(),
{
}

/// A non-empty linearization ends at a position after which nothing more
/// was collectable.
proof fn lemma_take_decided_tail(acc: Seq<StatusView>, p: int)
    requires
        take_decided(acc, p).len() > 0,
    ensures
        exists|q: int|
            0 <= q <= p && q < acc.len() && #[trigger] take_decided(acc, q - 1)
                =~= Seq::<StatusView>::empty() && take_decided(acc, p).last() == acc[q]
                && acc[q].round() > 0,
    decreases p + 1,
{
    let s = acc[p];
    if s.round() == 0 {
        lemma_take_decided_tail(acc, p - 1);
        let q = choose|q: int|
            0 <= q <= p - 1 && q < acc.len() && #[trigger] take_decided(acc, q - 1)
                =~= Seq::<StatusView>::empty() && take_decided(acc, p - 1).last() == acc[q]
                && acc[q].round() > 0;
        assert(0 <= q <= p && q < acc.len() && take_decided(acc, q - 1) =~= Seq::<
            StatusView,
        >::empty() && take_decided(acc, p).last() == acc[q] && acc[q].round() > 0);
    } else {
        if take_decided(acc, p - 1).len() > 0 {
            lemma_take_decided_tail(acc, p - 1);
            let q = choose|q: int|
                0 <= q <= p - 1 && q < acc.len() && #[trigger] take_decided(acc, q - 1)
                    =~= Seq::<StatusView>::empty() && take_decided(acc, p - 1).last() == acc[q]
                    && acc[q].round() > 0;
            assert(take_decided(acc, p).last() == take_decided(acc, p - 1).last());
            assert(0 <= q <= p && q < acc.len() && take_decided(acc, q - 1) =~= Seq::<
                StatusView,
            >::empty() && take_decided(acc, p).last() == acc[q] && acc[q].round() > 0);
        } else {
            assert(take_decided(acc, p) =~= seq![s] + take_decided(acc, p - 1));
            assert(take_decided(acc, p).last() == acc[p]);
            assert(0 <= p <= p && p < acc.len() && take_decided(acc, p - 1) =~= Seq::<
                StatusView,
            >::empty() && take_decided(acc, p).last() == acc[p] && acc[p].round() > 0);
        }
    }
}

/// Collecting within a prefix collects the same statuses.
proof fn lemma_take_decided_prefix(acc: Seq<StatusView>, short: Seq<StatusView>, p: int)
    requires
        short.len() <= acc.len(),
        acc.take(short.len() as int) == short,
        p < short.len(),
    ensures
        take_decided(short, p) == take_decided(acc, p),
    decreases p + 1,
{
    if 0 <= p {
        assert(short[p] == acc.take(short.len() as int)[p]);
        lemma_take_decided_prefix(acc, short, p - 1);
    }
}

/// `find_last_match` finds a match with nothing above it.
proof fn lemma_find_last_match_shape(acc: Seq<StatusView>, last: BlockReference)
    ensures
        ({
            let p = find_last_match(acc, last);
            &&& p == -1 || (0 <= p < acc.len() && matches_last(acc[p], last))
            &&& forall|i: int| p < i < acc.len() ==> !matches_last(#[trigger] acc[i], last)
        }),
    decreases acc.len(),
{
    if acc.len() > 0 && !matches_last(acc.last(), last) {
        lemma_find_last_match_shape(acc.drop_last(), last);
        let p = find_last_match(acc.drop_last(), last);
        assert forall|i: int| p < i < acc.len() implies !matches_last(#[trigger] acc[i], last) by {
            if i < acc.len() - 1 {
                assert(acc.drop_last()[i] == acc[i]);
            }
        }
        if p >= 0 {
            assert(acc[p] == acc.drop_last()[p]);
        }
    }
}

/// Idempotence of the commit search: calling again with the cache the first
/// call left behind and with the last returned decision as the new starting
/// point returns nothing — no decision is ever returned twice, and no
/// decision is ever revised, as long as the DAG has not grown.
///
/// `distinct_slots` asks that no two committers handle the same leader slot
/// of a round, which every sensibly built committer set satisfies.
pub proof fn theorem_try_commit_idempotent(
    dag: Seq<BlockView>,
    cs: Seq<BaseCommitter>,
    memo: Map<(AuthorityIndex, RoundNumber), StatusView>,
    last: BlockReference,
    threshold: RoundNumber,
    wave: RoundNumber,
    last2: BlockReference,
)
    requires
        distinct_slots(cs),
        memo_wf(memo),
        highest_round_spec(dag) <= u64::MAX,
        try_commit_spec(dag, cs, memo, last, threshold, wave).len() > 0,
        last2.round == try_commit_spec(dag, cs, memo, last, threshold, wave).last().round(),
        last2.authority == try_commit_spec(dag, cs, memo, last, threshold, wave).last().authority(),
    ensures
        try_commit_spec(
            dag,
            cs,
            try_commit_memo_spec(dag, cs, memo, last, threshold, wave),
            last2,
            threshold,
            wave,
        ) == Seq::<StatusView>::empty(),
{
    let s1 = try_commit_spec(dag, cs, memo, last, threshold, wave);
    let hi = highest_round_spec(dag);
    assert(hi >= wave);
    let lo1 = last.round as int;
    let run1 = eval_rounds_spec(dag, cs, memo, Seq::empty(), hi, lo1, threshold, wave);
    let acc1 = run1.0;
    let memo_after = run1.1;
    let p = find_last_match(acc1, last);
    assert(p >= 0);
    assert(s1 == take_decided(acc1, p - 1));
    lemma_take_decided_tail(acc1, p - 1);
    let q0 = choose|q: int|
        0 <= q <= p - 1 && q < acc1.len() && #[trigger] take_decided(acc1, q - 1) =~= Seq::<
            StatusView,
        >::empty() && take_decided(acc1, p - 1).last() == acc1[q] && acc1[q].round() > 0;
    assert(s1.last() == acc1[q0]);
    lemma_rounds_acc_shape(dag, cs, memo, Seq::empty(), hi, lo1, threshold, wave);
    assert(lo1 <= acc1[q0].round() <= hi);
    let lo2 = last2.round as int;
    assert(lo2 == acc1[q0].round());
    // split the first run at the new starting round
    lemma_rounds_compose(dag, cs, memo, Seq::empty(), hi, lo2, lo1, threshold, wave);
    let run_hi = eval_rounds_spec(dag, cs, memo, Seq::empty(), hi, lo2, threshold, wave);
    let acc_hi = run_hi.0;
    let memo_hi = run_hi.1;
    lemma_rounds_acc_shape(dag, cs, memo, Seq::empty(), hi, lo2, threshold, wave);
    lemma_rounds_acc_shape(dag, cs, memo_hi, acc_hi, lo2 - 1, lo1, threshold, wave);
    assert(acc1.take(acc_hi.len() as int) == acc_hi);
    // the tail of the first run's statuses sits strictly below `lo2`
    assert(q0 < acc_hi.len()) by {
        if q0 >= acc_hi.len() {
            assert(lo1 <= acc1[q0].round() <= lo2 - 1);
        }
    }
    // the second run replays the high part and changes nothing
    lemma_rounds_memo_shape(dag, cs, memo, Seq::empty(), hi, lo2, threshold, wave);
    lemma_rounds_memo_shape(dag, cs, memo_hi, acc_hi, lo2 - 1, lo1, threshold, wave);
    assert(memo_submap(memo_hi, memo_after));
    assert forall|k: (AuthorityIndex, RoundNumber)|
        #[trigger] memo_after.contains_key(k) && !memo_hi.contains_key(k) implies !(lo2 <= k.1
        <= hi) by {
        assert(lo1 <= k.1 <= lo2 - 1);
    }
    lemma_rounds_replay(dag, cs, memo, memo_after, Seq::empty(), hi, lo2, threshold, wave);
    let run2 = eval_rounds_spec(dag, cs, memo_after, Seq::empty(), hi, lo2, threshold, wave);
    assert(run2.0 == acc_hi);
    // the second linearization starts at the very slot the first one ended
    // with, and collects nothing below it
    lemma_find_last_match_shape(acc_hi, last2);
    let p2 = find_last_match(acc_hi, last2);
    assert(acc_hi[q0] == acc1[q0]);
    assert(matches_last(acc_hi[q0], last2));
    assert(p2 >= q0);
    assert(matches_last(acc_hi[p2], last2));
    assert(p2 == q0) by {
        if p2 > q0 {
            assert(acc_hi[p2] == acc1[p2]);
            assert(acc1[q0].round() > acc1[p2].round() || (acc1[q0].round() == acc1[p2].round()
                && acc1[q0].authority() != acc1[p2].authority()));
        }
    }
    lemma_take_decided_prefix(acc1, acc_hi, q0 - 1);
    assert(try_commit_spec(dag, cs, memo_after, last2, threshold, wave) == take_decided(
        acc_hi,
        q0 - 1,
    ));
    assert(take_decided(acc_hi, q0 - 1) =~= Seq::<StatusView>::empty());
}

/// Rounds beyond the threshold's reach contribute nothing to a scan.
proof fn lemma_eval_rounds_all_skipped(
    dag: Seq<BlockView>,
    cs: Seq<BaseCommitter>,
    memo: Map<(AuthorityIndex, RoundNumber), StatusView>,
    acc: Seq<StatusView>,
    hi: int,
    lo: int,
    threshold: RoundNumber,
    wave: RoundNumber,
)
    requires
        lo + wave > threshold,
    ensures
        eval_rounds_spec(dag, cs, memo, acc, hi, lo, threshold, wave) == (acc, memo),
    decreases hi - lo + 1,
{
    if hi >= lo {
        lemma_eval_rounds_all_skipped(dag, cs, memo, acc, hi - 1, lo, threshold, wave);
    }
}

/// A round none of the committers handles contributes nothing.
proof fn lemma_eval_round_no_slot(
    dag: Seq<BlockView>,
    cs: Seq<BaseCommitter>,
    memo: Map<(AuthorityIndex, RoundNumber), StatusView>,
    acc: Seq<StatusView>,
    r: RoundNumber,
    j: int,
)
    requires
        forall|jj: int| 0 <= jj < cs.len() ==> (#[trigger] elect_of(cs, jj, r)) is None,
    ensures
        eval_round_spec(dag, cs, memo, acc, r, j) == (acc, memo),
    decreases j + 1,
{
    if !(j < 0 || j >= cs.len()) {
        assert(elect_of(cs, j, r) is None);
        lemma_eval_round_no_slot(dag, cs, memo, acc, r, j - 1);
    }
}

/// A stretch of rounds none of the committers handles contributes nothing.
proof fn lemma_eval_rounds_no_slots(
    dag: Seq<BlockView>,
    cs: Seq<BaseCommitter>,
    memo: Map<(AuthorityIndex, RoundNumber), StatusView>,
    acc: Seq<StatusView>,
    hi: int,
    lo: int,
    threshold: RoundNumber,
    wave: RoundNumber,
)
    requires
        0 <= lo,
        hi <= u64::MAX,
        forall|r: int, jj: int|
            lo <= r <= hi && 0 <= jj < cs.len() ==> (#[trigger] elect_of(
                cs,
                jj,
                r as RoundNumber,
            )) is None,
    ensures
        eval_rounds_spec(dag, cs, memo, acc, hi, lo, threshold, wave) == (acc, memo),
    decreases hi - lo + 1,
{
    if hi >= lo {
        if hi + wave <= threshold {
            lemma_eval_round_no_slot(dag, cs, memo, acc, hi as RoundNumber, cs.len() - 1);
        }
        lemma_eval_rounds_no_slots(dag, cs, memo, acc, hi - 1, lo, threshold, wave);
    }
}

/// Direct commit, end to end: a single committer with the default position
/// (no pipelining, first leader slot), scanning a fully connected DAG that
/// holds the first wave's decision round, from the genesis slot, with a
/// threshold reaching wave one and no further, returns exactly one
/// decision: the commit of the wave-one leader.
pub proof fn theorem_direct_commit_sequence(
    dag: Seq<BlockView>,
    cs: Seq<BaseCommitter>,
    n: int,
    w: RoundNumber,
    hi: RoundNumber,
    threshold: RoundNumber,
    last: BlockReference,
)
    requires
        dag_well_formed(dag),
        crate::block_store::fully_connected_dag(dag, n, hi as int),
        highest_round_spec(dag) == hi,
        1 <= n <= crate::committee::MAX_COMMITTEE_SIZE,
        3 <= w < MAX_ROUND,
        cs.len() == 1,
        cs[0].committee_spec().len_spec() == n,
        cs[0].options_spec() == (BaseCommitterOptions {
            wave_length: w,
            round_offset: 0,
            leader_offset: 0,
            pipelined: false,
        }),
        2 * w - 1 <= hi <= MAX_ROUND,
        2 * w <= threshold < 3 * w,
        last.round == 0,
        last.authority == 0,
    ensures
        ({
            let result = try_commit_spec(
                dag,
                cs,
                Map::<(AuthorityIndex, RoundNumber), StatusView>::empty(),
                last,
                threshold,
                w,
            );
            &&& result.len() == 1
            &&& result[0] matches StatusView::Commit { block } && block.reference.authority == (
            w as int) % n && block.reference.round == w
        }),
{
    let memo0 = Map::<(AuthorityIndex, RoundNumber), StatusView>::empty();
    let acc0 = Seq::<StatusView>::empty();
    assert(highest_round_spec(dag) >= w);
    // rounds beyond the threshold's reach are skipped
    lemma_rounds_compose(dag, cs, memo0, acc0, hi as int, threshold - w + 1, 0, threshold, w);
    lemma_eval_rounds_all_skipped(
        dag,
        cs,
        memo0,
        acc0,
        hi as int,
        threshold - w + 1,
        threshold,
        w,
    );
    // rounds strictly between the two leader rounds carry no slot
    assert forall|r: int, jj: int|
        w + 1 <= r <= threshold - w && 0 <= jj < cs.len() implies (#[trigger] elect_of(
        cs,
        jj,
        r as RoundNumber,
    )) is None by {
        vstd::arithmetic::div_mod::lemma_fundamental_div_mod_converse(r, w as int, 1, r - w);
        assert(r % (w as int) == r - w);
    }
    lemma_rounds_compose(dag, cs, memo0, acc0, threshold - w, w + 1, 0, threshold, w);
    lemma_eval_rounds_no_slots(dag, cs, memo0, acc0, threshold - w, w + 1, threshold, w);
    // the wave-one leader round carries a slot, directly committed
    let leader_w = (((w as int) % n) as AuthorityIndex);
    assert(elect_of(cs, 0, w) == Some(leader_w)) by {
        vstd::arithmetic::div_mod::lemma_fundamental_div_mod_converse(w as int, w as int, 1, 0);
    }
    crate::consensus::base_committer::theorem_full_dag_commits(dag, n, hi as int, w, leader_w, w);
    let status_w = crate::consensus::base_committer::direct_decide_spec(dag, n, w, leader_w, w);
    assert(evaluate_slot_spec(dag, cs[0], memo0, leader_w, w, acc0) == status_w);
    let memo1 = memo0.insert((leader_w, w), status_w);
    let acc1 = acc0.push(status_w);
    assert(status_w.is_decided());
    assert(eval_round_spec(dag, cs, memo1, acc1, w, -1) == (acc1, memo1));
    assert(eval_round_spec(dag, cs, memo0, acc0, w, 0) == (acc1, memo1));
    // the rounds inside the first wave carry no slot either
    assert forall|r: int, jj: int|
        1 <= r <= w - 1 && 0 <= jj < cs.len() implies (#[trigger] elect_of(
        cs,
        jj,
        r as RoundNumber,
    )) is None by {
        vstd::arithmetic::div_mod::lemma_fundamental_div_mod_converse(r, w as int, 0, r);
        assert(r % (w as int) == r);
    }
    lemma_rounds_compose(dag, cs, memo1, acc1, w - 1, 1, 0, threshold, w);
    lemma_eval_rounds_no_slots(dag, cs, memo1, acc1, w - 1, 1, threshold, w);
    // the genesis slot is directly committed too
    assert(elect_of(cs, 0, 0) == Some(0u64)) by {
        vstd::arithmetic::div_mod::lemma_fundamental_div_mod_converse(0, w as int, 0, 0);
    }
    crate::consensus::base_committer::theorem_full_dag_commits(dag, n, hi as int, w, 0u64, 0);
    let status_0 = crate::consensus::base_committer::direct_decide_spec(dag, n, w, 0u64, 0);
    assert(!memo1.contains_key((0u64, 0u64)));
    assert(evaluate_slot_spec(dag, cs[0], memo1, 0u64, 0, acc1) == status_0);
    let acc2 = acc1.push(status_0);
    let memo2 = if status_0.is_decided() {
        memo1.insert((0u64, 0u64), status_0)
    } else {
        memo1
    };
    assert(eval_round_spec(dag, cs, memo2, acc2, 0, -1) == (acc2, memo2));
    assert(eval_round_spec(dag, cs, memo1, acc1, 0, 0) == (acc2, memo2));
    // the whole scan therefore produces exactly the two commits
    assert(eval_rounds_spec(dag, cs, memo0, acc0, hi as int, threshold - w + 1, threshold, w) == (
    acc0,
    memo0,
    ));
    assert(eval_rounds_spec(dag, cs, memo0, acc0, hi as int, 0, threshold, w) == eval_rounds_spec(
        dag,
        cs,
        memo0,
        acc0,
        threshold - w,
        0,
        threshold,
        w,
    ));
    assert(eval_rounds_spec(dag, cs, memo0, acc0, threshold - w, w + 1, threshold, w) == (
    acc0,
    memo0,
    ));
    assert(eval_rounds_spec(dag, cs, memo0, acc0, threshold - w, 0, threshold, w)
        == eval_rounds_spec(dag, cs, memo0, acc0, w as int, 0, threshold, w));
    assert(w + w <= threshold);
    assert(eval_rounds_spec(dag, cs, memo0, acc0, w as int, 0, threshold, w) == eval_rounds_spec(
        dag,
        cs,
        memo1,
        acc1,
        w - 1,
        0,
        threshold,
        w,
    ));
    assert(eval_rounds_spec(dag, cs, memo1, acc1, w - 1, 1, threshold, w) == (acc1, memo1));
    assert(eval_rounds_spec(dag, cs, memo1, acc1, w - 1, 0, threshold, w) == eval_rounds_spec(
        dag,
        cs,
        memo1,
        acc1,
        0,
        0,
        threshold,
        w,
    ));
    assert(eval_rounds_spec(dag, cs, memo2, acc2, -1, 0, threshold, w) == (acc2, memo2));
    assert(eval_rounds_spec(dag, cs, memo1, acc1, 0, 0, threshold, w) == (acc2, memo2));
    let run = eval_rounds_spec(dag, cs, memo0, acc0, hi as int, last.round as int, threshold, w);
    assert(run.0 == acc2);
    // and the linearization keeps exactly the wave-one commit
    assert(acc2.len() == 2 && acc2[0] == status_w && acc2[1] == status_0);
    assert(status_0.round() == 0 && status_0.authority() == 0);
    assert(status_w.round() == w && status_w.authority() == leader_w);
    assert(matches_last(acc2.last(), last));
    assert(find_last_match(acc2, last) == 1);
    assert(take_decided(acc2, -1) =~= Seq::<StatusView>::empty());
    assert(take_decided(acc2, 0) =~= seq![status_w] + Seq::<StatusView>::empty());
    assert(take_decided(acc2, 0) =~= seq![status_w]);
    assert(try_commit_spec(dag, cs, memo0, last, threshold, w) == take_decided(acc2, 0));
}

/// Composes several base committers (one per pipeline stage and leader
/// slot) into one authoritative, gap-free, ordered commit sequence, and
/// memoizes decided slots across calls.
pub struct UniversalCommitter {
    block_store: BlockStore,
    committers: Vec<BaseCommitter>,
    previously_committed_leaders: Vec<MemoEntry>,
    wave_length: RoundNumber,
}

impl UniversalCommitter {
    /// The DAG this committer reads.
    pub closed spec fn dag(self) -> Seq<BlockView> {
        self.block_store.dag()
    }

    pub closed spec fn committers_spec(self) -> Seq<BaseCommitter> {
        self.committers@
    }

    pub closed spec fn wave_spec(self) -> RoundNumber {
        self.wave_length
    }

    /// The memoized decisions.
    pub closed spec fn memo_spec(self) -> Map<(AuthorityIndex, RoundNumber), StatusView> {
        memo_map_from(self.previously_committed_leaders@.map(|i: int, e: MemoEntry| memo_entry_view(e)))
    }

    pub closed spec fn store_inv(self) -> bool {
        self.block_store.inv()
    }

    /// Validity of the committer: a well-formed store, well-positioned base
    /// committers, and a truthful cache of settled decisions.
    pub open spec fn valid(self) -> bool {
        &&& self.store_inv()
        &&& 3 <= self.wave_spec() <= MAX_ROUND
        &&& forall|i: int|
            0 <= i < self.committers_spec().len() ==> (#[trigger] self.committers_spec()[i]).valid()
        &&& memo_wf(self.memo_spec())
    }

    /// Look the slot up in the cache.
    fn memo_lookup(&self, leader: AuthorityIndex, round: RoundNumber) -> (res: Option<LeaderStatus>)
        ensures
            match res {
                Some(s) => self.memo_spec().contains_key((leader, round)) && s@ == self.memo_spec()[
                    (leader, round)
                ],
                None => !self.memo_spec().contains_key((leader, round)),
            },
    {
        let ghost entries = self.previously_committed_leaders@.map(
            |i: int, e: MemoEntry| memo_entry_view(e),
        );
        let n = self.previously_committed_leaders.len();
        let mut i: usize = n;
        proof {
            assert(entries.take(n as int) =~= entries);
        }
        while i > 0
            invariant
                i <= n,
                n == entries.len(),
                entries == self.previously_committed_leaders@.map(
                    |j: int, e: MemoEntry| memo_entry_view(e),
                ),
                memo_map_from(entries).contains_key((leader, round)) == memo_map_from(
                    entries.take(i as int),
                ).contains_key((leader, round)),
                memo_map_from(entries).contains_key((leader, round)) ==> memo_map_from(
                    entries,
                )[(leader, round)] == memo_map_from(entries.take(i as int))[(leader, round)],
            decreases i,
        {
            proof {
                assert(entries.take(i as int).drop_last() =~= entries.take(i - 1));
                assert(entries.take(i as int).last() == entries[i - 1]);
            }
            let e = &self.previously_committed_leaders[i - 1];
            assert(entries[i - 1] == memo_entry_view(*e));
            if e.authority == leader && e.round == round {
                return Some(e.status.duplicate());
            }
            i = i - 1;
        }
        proof {
            assert(entries.take(0) =~= Seq::<(AuthorityIndex, RoundNumber, StatusView)>::empty());
        }
        None
    }

    /// Return the list of leaders expected at `round` across all configured
    /// committers; the synchronizer waits for (at least the first of) them
    /// before advancing past the round.
    pub fn get_leaders(&self, round: RoundNumber) -> (leaders: Vec<AuthorityIndex>)
        requires
            self.valid(),
            round <= MAX_ROUND,
        ensures
            leaders@ == leaders_spec(self.committers_spec(), round, 0),
    {
        let ghost cs = self.committers_spec();
        let n = self.committers.len();
        let mut leaders: Vec<AuthorityIndex> = Vec::new();
        let mut i: usize = 0;
        proof {
            assert(Seq::<AuthorityIndex>::empty() + leaders_spec(cs, round, 0) =~= leaders_spec(
                cs,
                round,
                0,
            ));
            assert(leaders@ =~= Seq::<AuthorityIndex>::empty());
        }
        while i < n
            invariant
                i <= n,
                n == cs.len(),
                cs == self.committers_spec(),
                self.valid(),
                round <= MAX_ROUND,
                leaders_spec(cs, round, 0) == leaders@ + leaders_spec(cs, round, i as int),
            decreases n - i,
        {
            proof {
                assert(self.committers_spec()[i as int].valid());
                assert(cs[i as int].valid());
            }
            let ghost pre = leaders@;
            match self.committers[i].elect_leader(round) {
                Some(leader) => {
                    leaders.push(leader);
                    proof {
                        assert(leaders@ =~= pre + seq![leader]);
                        assert((pre + seq![leader]) + leaders_spec(cs, round, i + 1) =~= pre + (
                        seq![leader] + leaders_spec(cs, round, i + 1)));
                    }
                },
                None => {},
            }
            i = i + 1;
        }
        proof {
            assert(leaders@ + leaders_spec(cs, round, n as int) =~= leaders@);
        }
        leaders
    }

    /// Try to commit part of the DAG: evaluate every leader slot between the
    /// last decided one and the highest known round (bounded by
    /// `threshold_round`), and return the ordered, gap-free sequence of
    /// settled decisions that directly extends `last_decided`. Idempotent:
    /// the DAG is not touched and settled slots are cached, never revised.
    pub fn try_commit(
        &mut self,
        last_decided: BlockReference,
        threshold_round: RoundNumber,
    ) -> (committed: Vec<LeaderStatus>)
        requires
            old(self).valid(),
        ensures
            final(self).valid(),
            final(self).dag() == old(self).dag(),
            final(self).committers_spec() == old(self).committers_spec(),
            final(self).wave_spec() == old(self).wave_spec(),
            committed.deep_view() == try_commit_spec(
                old(self).dag(),
                old(self).committers_spec(),
                old(self).memo_spec(),
                last_decided,
                threshold_round,
                old(self).wave_spec(),
            ),
            final(self).memo_spec() == try_commit_memo_spec(
                old(self).dag(),
                old(self).committers_spec(),
                old(self).memo_spec(),
                last_decided,
                threshold_round,
                old(self).wave_spec(),
            ),
    {
        let ghost dag = self.block_store.dag();
        let ghost cs = self.committers@;
        let ghost memo0 = self.memo_spec();
        let wave = self.wave_length;
        let highest = self.block_store.highest_round();
        if highest < wave {
            let committed: Vec<LeaderStatus> = Vec::new();
            proof {
                assert(committed.deep_view() =~= Seq::<StatusView>::empty());
            }
            return committed;
        }
        let lo = last_decided.round;
        let k = self.committers.len();
        let mut statuses: Vec<LeaderStatus> = Vec::new();
        let mut r_plus: RoundNumber = highest + 1;
        proof {
            assert(statuses.deep_view() =~= Seq::<StatusView>::empty());
        }
        while r_plus > lo
            invariant
                r_plus <= highest + 1,
                highest == highest_round_spec(dag),
                highest <= MAX_ROUND,
                lo == last_decided.round,
                k == cs.len(),
                wave == old(self).wave_spec(),
                3 <= wave <= MAX_ROUND,
                dag == old(self).dag(),
                cs == old(self).committers_spec(),
                memo0 == old(self).memo_spec(),
                self.block_store == old(self).block_store,
                self.committers@ == cs,
                self.wave_length == wave,
                self.valid(),
                eval_rounds_spec(
                    dag,
                    cs,
                    memo0,
                    Seq::empty(),
                    highest as int,
                    lo as int,
                    threshold_round,
                    wave,
                ) == eval_rounds_spec(
                    dag,
                    cs,
                    self.memo_spec(),
                    statuses.deep_view(),
                    r_plus - 1,
                    lo as int,
                    threshold_round,
                    wave,
                ),
            decreases r_plus,
        {
            let r = r_plus - 1;
            let ghost memo_entry = self.memo_spec();
            let ghost acc_entry = statuses.deep_view();
            if r + wave <= threshold_round {
                let mut j: usize = k;
                while j > 0
                    invariant
                        j <= k,
                        k == cs.len(),
                        highest <= MAX_ROUND,
                        r <= highest,
                        3 <= wave <= MAX_ROUND,
                        dag == old(self).dag(),
                        cs == old(self).committers_spec(),
                        self.block_store == old(self).block_store,
                        self.committers@ == cs,
                        self.wave_length == wave,
                        self.valid(),
                        eval_round_spec(dag, cs, memo_entry, acc_entry, r, k - 1)
                            == eval_round_spec(
                            dag,
                            cs,
                            self.memo_spec(),
                            statuses.deep_view(),
                            r,
                            j - 1,
                        ),
                    decreases j,
                {
                    let ghost memo_now = self.memo_spec();
                    let ghost acc_now = statuses.deep_view();
                    proof {
                        assert(self.committers_spec() == cs);
                        assert(self.committers_spec()[j - 1].valid());
                        assert(cs[j - 1].valid());
                    }
                    let committer = &self.committers[j - 1];
                    match committer.elect_leader(r) {
                        Some(leader) => {
                            let mut cached = true;
                            let status = match self.memo_lookup(leader, r) {
                                Some(s) => s,
                                None => {
                                    cached = false;
                                    let d = committer.try_direct_decide(
                                        &self.block_store,
                                        leader,
                                        r,
                                    );
                                    if d.is_decided() {
                                        d
                                    } else {
                                        committer.try_indirect_decide(
                                            &self.block_store,
                                            leader,
                                            r,
                                            &statuses,
                                        )
                                    }
                                },
                            };
                            proof {
                                assert(status@ == evaluate_slot_spec(
                                    dag,
                                    cs[j - 1],
                                    memo_now,
                                    leader,
                                    r,
                                    acc_now,
                                ));
                            }
                            if !cached && status.is_decided() {
                                let ghost entries_pre = self.previously_committed_leaders@.map(
                                    |ii: int, e: MemoEntry| memo_entry_view(e),
                                );
                                let entry = MemoEntry {
                                    authority: leader,
                                    round: r,
                                    status: status.duplicate(),
                                };
                                self.previously_committed_leaders.push(entry);
                                proof {
                                    let entries_new = self.previously_committed_leaders@.map(
                                        |ii: int, e: MemoEntry| memo_entry_view(e),
                                    );
                                    assert(entries_new =~= entries_pre.push((leader, r, status@)));
                                    assert(entries_new.drop_last() =~= entries_pre);
                                    assert(self.memo_spec() == memo_now.insert((leader, r), status@));
                                    lemma_slot_shape(dag, cs[j - 1], memo_now, leader, r, acc_now);
                                    assert forall|kk: (AuthorityIndex, RoundNumber)|
                                        self.memo_spec().contains_key(kk) implies (
                                        #[trigger] self.memo_spec()[kk]).is_decided()
                                            && self.memo_spec()[kk].authority() == kk.0
                                            && self.memo_spec()[kk].round() == kk.1 by {
                                        if kk != (leader, r) {
                                            assert(memo_now.contains_key(kk));
                                        }
                                    }
                                    assert(memo_wf(self.memo_spec()));
                                }
                            }
                            statuses.push(status);
                            proof {
                                assert(statuses.deep_view() =~= acc_now.push(status@));
                            }
                        },
                        None => {},
                    }
                    j = j - 1;
                }
                proof {
                    assert(eval_round_spec(
                        dag,
                        cs,
                        self.memo_spec(),
                        statuses.deep_view(),
                        r,
                        -1,
                    ) == (statuses.deep_view(), self.memo_spec()));
                }
            }
            r_plus = r_plus - 1;
        }
        proof {
            assert(eval_rounds_spec(
                dag,
                cs,
                self.memo_spec(),
                statuses.deep_view(),
                lo - 1,
                lo as int,
                threshold_round,
                wave,
            ) == (statuses.deep_view(), self.memo_spec()));
        }
        linearize(statuses, last_decided)
    }
}

/// Keep the longest prefix of settled decisions directly after
/// `last_decided`, dropping genesis entries.
fn linearize(statuses: Vec<LeaderStatus>, last_decided: BlockReference) -> (committed: Vec<
    LeaderStatus,
>)
    ensures
        committed.deep_view() == linearize_spec(statuses.deep_view(), last_decided),
{
    let ghost acc = statuses.deep_view();
    let n = statuses.len();
    // Find the position of the last decided slot, scanning the processing
    // order from its end (ascending rounds).
    let mut p: usize = n;
    let mut found = false;
    proof {
        assert(acc.take(n as int) =~= acc);
    }
    while p > 0 && !found
        invariant
            p <= n,
            n == acc.len(),
            acc == statuses.deep_view(),
            !found ==> find_last_match(acc, last_decided) == find_last_match(
                acc.take(p as int),
                last_decided,
            ),
            found ==> 0 < p <= n && find_last_match(acc, last_decided) == p - 1,
        decreases p + (if found { 0int } else { 1int }),
    {
        proof {
            assert(acc.take(p as int).drop_last() =~= acc.take(p - 1));
            assert(acc.take(p as int).last() == acc[p - 1]);
        }
        let s = &statuses[p - 1];
        assert(s@ == acc[p - 1]);
        if s.round() == last_decided.round && s.authority() == last_decided.authority {
            found = true;
        } else {
            p = p - 1;
        }
    }
    let mut committed: Vec<LeaderStatus> = Vec::new();
    proof {
        assert(committed.deep_view() =~= Seq::<StatusView>::empty());
    }
    if !found {
        proof {
            assert(acc.take(0) =~= Seq::<StatusView>::empty());
            assert(find_last_match(acc, last_decided) == -1);
        }
        return committed;
    }
    // Collect decided, non-genesis statuses below the match, stopping at the
    // first undecided one.
    proof {
        assert(Seq::<StatusView>::empty() + take_decided(acc, p - 2) =~= take_decided(acc, p - 2));
    }
    let mut q: usize = p - 1;
    while q > 0
        invariant
            q <= n,
            n == acc.len(),
            acc == statuses.deep_view(),
            1 <= p <= n,
            q <= p - 1,
            find_last_match(acc, last_decided) == p - 1,
            take_decided(acc, p - 2) == committed.deep_view() + take_decided(acc, q - 1),
        decreases q,
    {
        let s = &statuses[q - 1];
        assert(s@ == acc[q - 1]);
        let ghost pre = committed.deep_view();
        if s.round() == 0 {
            // genesis entries never enter the committed sequence
        } else if s.is_decided() {
            committed.push(s.duplicate());
            proof {
                assert(committed.deep_view() =~= pre.push(acc[q - 1]));
                assert(pre.push(acc[q - 1]) =~= pre + seq![acc[q - 1]]);
                assert((pre + seq![acc[q - 1]]) + take_decided(acc, q - 2) =~= pre + (
                seq![acc[q - 1]] + take_decided(acc, q - 2)));
            }
        } else {
            proof {
                assert(take_decided(acc, q - 1) =~= Seq::<StatusView>::empty());
                assert(pre + Seq::<StatusView>::empty() =~= pre);
            }
            return committed;
        }
        q = q - 1;
    }
    proof {
        assert(take_decided(acc, -1) =~= Seq::<StatusView>::empty());
        assert(committed.deep_view() + Seq::<StatusView>::empty() =~= committed.deep_view());
    }
    committed
}

/// Two numbers of the same residue class cannot sit strictly within one
/// modulus of each other.
proof fn lemma_mod_injective_window(x: int, y: int, m: int)
    requires
        m > 0,
        0 < x - y < m,
        0 <= y,
    ensures
        x % m != y % m,
{
    vstd::arithmetic::div_mod::lemma_fundamental_div_mod(x, m);
    vstd::arithmetic::div_mod::lemma_fundamental_div_mod(y, m);
    if x % m == y % m {
        let qx = x / m;
        let qy = y / m;
        assert(x - y == (qx - qy) * m) by (nonlinear_arith)
            requires
                x == m * qx + x % m,
                y == m * qy + y % m,
                x % m == y % m,
        ;
        assert(!(0 < (qx - qy) * m < m)) by (nonlinear_arith)
            requires
                m > 0,
        ;
    }
}

/// A builder for a universal committer. By default it composes a single
/// base committer: one leader per round, no pipelining.
pub struct UniversalCommitterBuilder {
    committee: Committee,
    block_store: BlockStore,
    wave_length: RoundNumber,
    number_of_leaders: usize,
    pipeline: bool,
}

impl UniversalCommitterBuilder {
    pub closed spec fn store_spec(self) -> BlockStore {
        self.block_store
    }

    pub closed spec fn committee_spec(self) -> Committee {
        self.committee
    }

    pub closed spec fn wave_length_spec(self) -> RoundNumber {
        self.wave_length
    }

    pub closed spec fn number_of_leaders_spec(self) -> int {
        self.number_of_leaders as int
    }

    pub closed spec fn pipeline_spec(self) -> bool {
        self.pipeline
    }

    pub open spec fn valid(self) -> bool {
        &&& self.store_spec().inv()
        &&& 3 <= self.wave_length_spec() <= MAX_ROUND
        &&& 1 <= self.number_of_leaders_spec() <= MAX_COMMITTEE_SIZE
    }

    pub fn new(committee: Committee, block_store: BlockStore) -> (builder: UniversalCommitterBuilder)
        requires
            block_store.inv(),
        ensures
            builder.valid(),
            builder.committee_spec() == committee,
            builder.store_spec() == block_store,
            builder.wave_length_spec() == DEFAULT_WAVE_LENGTH,
            builder.number_of_leaders_spec() == 1,
            !builder.pipeline_spec(),
    {
        UniversalCommitterBuilder {
            committee,
            block_store,
            wave_length: DEFAULT_WAVE_LENGTH,
            number_of_leaders: 1,
            pipeline: false,
        }
    }

    pub fn with_wave_length(self, wave_length: RoundNumber) -> (builder: UniversalCommitterBuilder)
        requires
            3 <= wave_length <= MAX_ROUND,
        ensures
            builder.committee_spec() == self.committee_spec(),
            builder.store_spec() == self.store_spec(),
            builder.wave_length_spec() == wave_length,
            builder.number_of_leaders_spec() == self.number_of_leaders_spec(),
            builder.pipeline_spec() == self.pipeline_spec(),
            self.valid() ==> builder.valid(),
    {
        UniversalCommitterBuilder { wave_length, ..self }
    }

    pub fn with_number_of_leaders(self, number_of_leaders: usize) -> (builder: UniversalCommitterBuilder)
        requires
            1 <= number_of_leaders <= MAX_COMMITTEE_SIZE,
        ensures
            builder.committee_spec() == self.committee_spec(),
            builder.store_spec() == self.store_spec(),
            builder.wave_length_spec() == self.wave_length_spec(),
            builder.number_of_leaders_spec() == number_of_leaders,
            builder.pipeline_spec() == self.pipeline_spec(),
            self.valid() ==> builder.valid(),
    {
        UniversalCommitterBuilder { number_of_leaders, ..self }
    }

    pub fn with_pipeline(self, pipeline: bool) -> (builder: UniversalCommitterBuilder)
        ensures
            builder.committee_spec() == self.committee_spec(),
            builder.store_spec() == self.store_spec(),
            builder.wave_length_spec() == self.wave_length_spec(),
            builder.number_of_leaders_spec() == self.number_of_leaders_spec(),
            builder.pipeline_spec() == pipeline,
            self.valid() ==> builder.valid(),
    {
        UniversalCommitterBuilder { pipeline, ..self }
    }

    /// Compose one base committer per pipeline stage and leader slot:
    /// committers with staggered round offsets when pipelining, and with
    /// consecutive leader offsets for the configured number of leaders.
    /// No two of them handle the same leader slot.
    pub fn build(self) -> (committer: UniversalCommitter)
        requires
            self.valid(),
            self.number_of_leaders_spec() <= self.committee_spec().len_spec(),
        ensures
            committer.valid(),
            committer.dag() == self.store_spec().dag(),
            committer.wave_spec() == self.wave_length_spec(),
            committer.memo_spec() == Map::<(AuthorityIndex, RoundNumber), StatusView>::empty(),
            committer.committers_spec().len() == (if self.pipeline_spec() {
                self.wave_length_spec() as int
            } else {
                1int
            }) * self.number_of_leaders_spec(),
            // committer `i` serves pipeline stage `i / number_of_leaders`
            // and leader slot `i % number_of_leaders`, over the builder's
            // committee
            forall|i: int|
                0 <= i < committer.committers_spec().len()
                    ==> (#[trigger] committer.committers_spec()[i]).committee_spec()
                        == self.committee_spec(),
            forall|i: int|
                0 <= i < committer.committers_spec().len()
                    ==> (#[trigger] committer.committers_spec()[i]).options_spec()
                        == (BaseCommitterOptions {
                        wave_length: self.wave_length_spec(),
                        round_offset: (i / self.number_of_leaders_spec()) as RoundNumber,
                        leader_offset: (i % self.number_of_leaders_spec()) as RoundNumber,
                        pipelined: self.pipeline_spec(),
                    }),
            distinct_slots(committer.committers_spec()),
    {
        let ghost n_spec = self.committee.len_spec();
        let _committee_size = self.committee.len();
        assert(1 <= n_spec <= MAX_COMMITTEE_SIZE);
        let pipeline_stages: u64 = if self.pipeline {
            self.wave_length
        } else {
            1
        };
        let nl = self.number_of_leaders as u64;
        let mut committers: Vec<BaseCommitter> = Vec::new();
        let mut round_offset: u64 = 0;
        while round_offset < pipeline_stages
            invariant
                round_offset <= pipeline_stages,
                pipeline_stages <= self.wave_length,
                3 <= self.wave_length <= MAX_ROUND,
                1 <= nl <= MAX_COMMITTEE_SIZE,
                nl <= n_spec,
                n_spec == self.committee_spec().len_spec(),
                committers@.len() == round_offset * nl,
                forall|i: int| 0 <= i < committers@.len() ==> (#[trigger] committers@[i]).valid(),
                forall|i: int|
                    0 <= i < committers@.len() ==> (#[trigger] committers@[i]).committee_spec()
                        == self.committee_spec(),
                forall|i: int|
                    0 <= i < committers@.len() ==> (#[trigger] committers@[i]).options_spec()
                        == (BaseCommitterOptions {
                        wave_length: self.wave_length,
                        round_offset: (i / nl as int) as RoundNumber,
                        leader_offset: (i % nl as int) as RoundNumber,
                        pipelined: self.pipeline,
                    }),
            decreases pipeline_stages - round_offset,
        {
            let mut leader_offset: u64 = 0;
            while leader_offset < nl
                invariant
                    leader_offset <= nl,
                    round_offset < pipeline_stages,
                    pipeline_stages <= self.wave_length,
                    3 <= self.wave_length <= MAX_ROUND,
                    1 <= nl <= MAX_COMMITTEE_SIZE,
                    nl <= n_spec,
                    n_spec == self.committee_spec().len_spec(),
                    committers@.len() == round_offset * nl + leader_offset,
                    forall|i: int| 0 <= i < committers@.len() ==> (#[trigger] committers@[i]).valid(),
                    forall|i: int|
                        0 <= i < committers@.len() ==> (#[trigger] committers@[i]).committee_spec()
                            == self.committee_spec(),
                    forall|i: int|
                        0 <= i < committers@.len() ==> (#[trigger] committers@[i]).options_spec()
                            == (BaseCommitterOptions {
                            wave_length: self.wave_length,
                            round_offset: (i / nl as int) as RoundNumber,
                            leader_offset: (i % nl as int) as RoundNumber,
                            pipelined: self.pipeline,
                        }),
                decreases nl - leader_offset,
            {
                let options = BaseCommitterOptions {
                    wave_length: self.wave_length,
                    round_offset,
                    leader_offset,
                    pipelined: self.pipeline,
                };
                let committer = BaseCommitter::new(self.committee).with_options(options);
                committers.push(committer);
                proof {
                    let idx = round_offset * nl + leader_offset;
                    vstd::arithmetic::div_mod::lemma_fundamental_div_mod_converse(
                        idx as int,
                        nl as int,
                        round_offset as int,
                        leader_offset as int,
                    );
                }
                leader_offset = leader_offset + 1;
            }
            proof {
                assert((round_offset + 1) * nl == round_offset * nl + nl) by (nonlinear_arith);
            }
            round_offset = round_offset + 1;
        }
        proof {
            let cs = committers@;
            let w = self.wave_length as int;
            let nli = nl as int;
            assert forall|r: RoundNumber, i: int, j: int|
                0 <= i < j < cs.len() implies match (
                #[trigger] elect_of(cs, i, r),
                #[trigger] elect_of(cs, j, r),
            ) {
                (Some(a), Some(b)) => a != b,
                _ => true,
            } by {
                match (elect_of(cs, i, r), elect_of(cs, j, r)) {
                    (Some(a), Some(b)) => {
                        let roi = i / nli;
                        let roj = j / nli;
                        let loi = i % nli;
                        let loj = j % nli;
                        vstd::arithmetic::div_mod::lemma_fundamental_div_mod(i, nli);
                        vstd::arithmetic::div_mod::lemma_fundamental_div_mod(j, nli);
                        assert(0 <= loi < nli && 0 <= loj < nli);
                        assert(roi >= 0 && roj >= 0) by (nonlinear_arith)
                            requires
                                i >= 0,
                                j >= 0,
                                nli > 0,
                                roi == i / nli,
                                roj == j / nli,
                        ;
                        assert(roi < pipeline_stages && roj < pipeline_stages) by (nonlinear_arith)
                            requires
                                roi * nli + loi == i,
                                roj * nli + loj == j,
                                i < pipeline_stages * nli,
                                j < pipeline_stages * nli,
                                0 <= loi < nli,
                                0 <= loj < nli,
                                nli > 0,
                        ;
                        let oi = cs[i].options_spec();
                        let oj = cs[j].options_spec();
                        assert(oi.round_offset == roi as RoundNumber && oi.leader_offset
                            == loi as RoundNumber && oi.wave_length == self.wave_length);
                        assert(oj.round_offset == roj as RoundNumber && oj.leader_offset
                            == loj as RoundNumber && oj.wave_length == self.wave_length);
                        assert(a as int == (r as int + loi) % n_spec);
                        assert(b as int == (r as int + loj) % n_spec);
                        if roi == roj {
                            assert(loi != loj) by (nonlinear_arith)
                                requires
                                    roi * nli + loi == i,
                                    roj * nli + loj == j,
                                    roi == roj,
                                    i != j,
                            ;
                            if loi < loj {
                                lemma_mod_injective_window(r + loj, r + loi, n_spec);
                            } else {
                                lemma_mod_injective_window(r + loi, r + loj, n_spec);
                            }
                            assert((r as int + loi) % n_spec != (r as int + loj) % n_spec);
                            assert(0 <= (r as int + loi) % n_spec < n_spec);
                            assert(0 <= (r as int + loj) % n_spec < n_spec);
                            assert(a != b);
                        } else {
                            // both committers would have to be aligned to the
                            // same round, but their offsets differ by less
                            // than a wave
                            let ai = r - roi;
                            let aj = r - roj;
                            assert(r as int >= roi && ai % w == 0);
                            assert(r as int >= roj && aj % w == 0);
                            vstd::arithmetic::div_mod::lemma_fundamental_div_mod(ai, w);
                            vstd::arithmetic::div_mod::lemma_fundamental_div_mod(aj, w);
                            let qi = ai / w;
                            let qj = aj / w;
                            if roi < roj {
                                assert(0 < ai - aj < w);
                                assert(ai - aj == (qi - qj) * w) by (nonlinear_arith)
                                    requires
                                        ai == w * qi + ai % w,
                                        aj == w * qj + aj % w,
                                        ai % w == 0,
                                        aj % w == 0,
                                ;
                                assert(!(0 < (qi - qj) * w < w)) by (nonlinear_arith)
                                    requires
                                        w > 0,
                                ;
                                assert(false);
                            } else {
                                assert(0 < aj - ai < w);
                                assert(aj - ai == (qj - qi) * w) by (nonlinear_arith)
                                    requires
                                        ai == w * qi + ai % w,
                                        aj == w * qj + aj % w,
                                        ai % w == 0,
                                        aj % w == 0,
                                ;
                                assert(!(0 < (qj - qi) * w < w)) by (nonlinear_arith)
                                    requires
                                        w > 0,
                                ;
                                assert(false);
                            }
                        }
                    },
                    _ => {},
                }
            }
        }
        let committer = UniversalCommitter {
            block_store: self.block_store,
            committers,
            previously_committed_leaders: Vec::new(),
            wave_length: self.wave_length,
        };
        proof {
            assert(committer.previously_committed_leaders@.map(
                |i: int, e: MemoEntry| memo_entry_view(e),
            ) =~= Seq::<(AuthorityIndex, RoundNumber, StatusView)>::empty());
        }
        committer
    }
}

} // verus!
