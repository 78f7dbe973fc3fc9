use vstd::prelude::*;
use crate::faults::FaultsType;

verus! {

/// Benchmarks run until stopped unless a duration is set.
pub fn default_benchmark_duration() -> (secs: u64)
    ensures
        secs == 0,
{
    0
}

/// By default no fault is injected.
pub fn default_faults_type() -> (faults: FaultsType)
    ensures
        faults == (FaultsType::Permanent { faults: 0 }),
{
    FaultsType::Permanent { faults: 0 }
}

/// The working directory on the remote instances.
pub fn default_working_dir() -> (dir: String)
    ensures
        dir@ == "~/working_dir"@,
{
    "~/working_dir".to_owned()
}

/// Where measurement results are stored locally.
pub fn default_results_dir() -> (dir: String)
    ensures
        dir@ == "./results"@,
{
    "./results".to_owned()
}

/// Where log files are downloaded locally.
pub fn default_logs_dir() -> (dir: String)
    ensures
        dir@ == "./logs"@,
{
    "./logs".to_owned()
}

/// NVMe drives are used when available.
pub fn default_use_nvme() -> (nvme: bool)
    ensures
        nvme,
{
    true
}

/// Seconds between measurement collections.
pub fn default_scrape_interval() -> (secs: u64)
    ensures
        secs == 15,
{
    15
}

/// Log files are not processed unless asked for.
pub fn default_log_processing() -> (enabled: bool)
    ensures
        !enabled,
{
    false
}

/// Load generators are collocated with the nodes by default.
pub fn default_dedicated_clients() -> (clients: usize)
    ensures
        clients == 0,
{
    0
}

/// Monitoring runs by default.
pub fn default_monitoring() -> (enabled: bool)
    ensures
        enabled,
{
    true
}

/// Timeout of remote shell commands, in seconds.
pub fn default_ssh_timeout() -> (secs: u64)
    ensures
        secs == 30,
{
    30
}

/// How often to retry a remote shell command.
pub fn default_ssh_retries() -> (retries: usize)
    ensures
        retries == 3,
{
    3
}

} // verus!
