pub mod base_committer;
pub mod universal_committer;

use vstd::prelude::*;
use crate::types::{AuthorityIndex, BlockView, RoundNumber, StatementBlock};

verus! {

/// Number of consecutive rounds in a wave: a leader round, intermediate
/// voting rounds, and a decision round.
pub const DEFAULT_WAVE_LENGTH: RoundNumber = 3;

/// Mathematical image of a leader decision.
pub enum StatusView {
    Commit { block: BlockView },
    Skip { authority: AuthorityIndex, round: RoundNumber },
    Undecided { authority: AuthorityIndex, round: RoundNumber },
}

impl StatusView {
    pub open spec fn authority(self) -> AuthorityIndex {
        match self {
            StatusView::Commit { block } => block.reference.authority,
            StatusView::Skip { authority, .. } => authority,
            StatusView::Undecided { authority, .. } => authority,
        }
    }

    pub open spec fn round(self) -> RoundNumber {
        match self {
            StatusView::Commit { block } => block.reference.round,
            StatusView::Skip { round, .. } => round,
            StatusView::Undecided { round, .. } => round,
        }
    }

    pub open spec fn is_decided(self) -> bool {
        !(self is Undecided)
    }
}

/// The fate of one leader slot. `Commit` finalizes the leader block; `Skip`
/// proves that the slot stays empty forever; `Undecided` reports that the
/// DAG known so far cannot settle the slot either way.
#[derive(Clone, PartialEq, Eq, Hash, Debug, PartialOrd, Ord)]
pub enum LeaderStatus {
    Commit(StatementBlock),
    Skip(AuthorityIndex, RoundNumber),
    Undecided(AuthorityIndex, RoundNumber),
}

impl View for LeaderStatus {
    type V = StatusView;

    open spec fn view(&self) -> StatusView {
        match self {
            LeaderStatus::Commit(block) => StatusView::Commit { block: block@ },
            LeaderStatus::Skip(authority, round) => StatusView::Skip {
                authority: *authority,
                round: *round,
            },
            LeaderStatus::Undecided(authority, round) => StatusView::Undecided {
                authority: *authority,
                round: *round,
            },
        }
    }
}

impl DeepView for LeaderStatus {
    type V = StatusView;

    open spec fn deep_view(&self) -> StatusView {
        self@
    }
}

impl LeaderStatus {
    /// The authority of the leader slot this decision is about.
    pub fn authority(&self) -> (a: AuthorityIndex)
        ensures
            a == self@.authority(),
    {
        match self {
            LeaderStatus::Commit(block) => block.author(),
            LeaderStatus::Skip(authority, _) => *authority,
            LeaderStatus::Undecided(authority, _) => *authority,
        }
    }

    /// The round of the leader slot this decision is about.
    pub fn round(&self) -> (r: RoundNumber)
        ensures
            r == self@.round(),
    {
        match self {
            LeaderStatus::Commit(block) => block.round(),
            LeaderStatus::Skip(_, round) => *round,
            LeaderStatus::Undecided(_, round) => *round,
        }
    }

    /// Whether the slot's fate is settled (`Commit` or `Skip`).
    pub fn is_decided(&self) -> (d: bool)
        ensures
            d == self@.is_decided(),
    {
        match self {
            LeaderStatus::Commit(_) => true,
            LeaderStatus::Skip(_, _) => true,
            LeaderStatus::Undecided(_, _) => false,
        }
    }

    /// An owned copy describing the same decision.
    pub fn duplicate(&self) -> (s: LeaderStatus)
        ensures
            s@ == self@,
    {
        match self {
            LeaderStatus::Commit(block) => LeaderStatus::Commit(block.duplicate()),
            LeaderStatus::Skip(authority, round) => LeaderStatus::Skip(*authority, *round),
            LeaderStatus::Undecided(authority, round) => LeaderStatus::Undecided(*authority, *round),
        }
    }
}

} // verus!
