use vstd::prelude::*;
use crate::types::RoundNumber;

verus! {

pub open spec fn default_wave_length_spec() -> RoundNumber {
    3
}

/// The default wave length: leader round, voting round, decision round.
pub fn default_wave_length() -> (w: RoundNumber)
    ensures
        w == default_wave_length_spec(),
{
    3
}

pub open spec fn default_leader_timeout_spec() -> u64 {
    2
}

/// How long to wait for a leader block, in seconds.
pub fn default_leader_timeout() -> (secs: u64)
    ensures
        secs == default_leader_timeout_spec(),
{
    2
}

pub open spec fn default_rounds_in_epoch_spec() -> RoundNumber {
    3600000
}

/// How many rounds one epoch spans.
pub fn default_rounds_in_epoch() -> (rounds: RoundNumber)
    ensures
        rounds == default_rounds_in_epoch_spec(),
{
    3600000
}

pub open spec fn default_shutdown_grace_period_spec() -> u64 {
    2
}

/// How long a shutting-down node keeps serving, in seconds.
pub fn default_shutdown_grace_period() -> (secs: u64)
    ensures
        secs == default_shutdown_grace_period_spec(),
{
    2
}

pub open spec fn default_number_of_leaders_spec() -> usize {
    2
}

/// How many leader slots each round carries.
pub fn default_number_of_leaders() -> (leaders: usize)
    ensures
        leaders == default_number_of_leaders_spec(),
{
    2
}

pub open spec fn default_enable_pipelining_spec() -> bool {
    true
}

/// Whether overlapping waves run at staggered offsets.
pub fn default_enable_pipelining() -> (enabled: bool)
    ensures
        enabled == default_enable_pipelining_spec(),
{
    true
}

pub open spec fn default_consensus_only_spec() -> bool {
    true
}

/// Whether the node runs consensus without transaction dissemination.
pub fn default_consensus_only() -> (enabled: bool)
    ensures
        enabled == default_consensus_only_spec(),
{
    true
}

} // verus!
