pub mod defaults;

use vstd::prelude::*;
use crate::faults::FaultsType;

verus! {

/// The list of supported cloud providers.
pub enum CloudProvider {
    Aws,
    Vultr,
}

impl Default for CloudProvider {
    fn default() -> (p: CloudProvider)
        ensures
            p is Aws,
    {
        CloudProvider::Aws
    }
}

/// The testbed settings, as read from the settings file. Paths are plain
/// strings; the surrounding process resolves them against the file system.
pub struct Settings {
    /// Unique testbed id, letting several users share one cloud account.
    pub testbed_id: String,
    /// The cloud provider hosting the testbed.
    pub cloud_provider: CloudProvider,
    /// The cloud provider regions to deploy to.
    pub regions: Vec<String>,
    /// The instance specs to deploy, in the provider's notation.
    pub specs: String,
    /// The duration of the benchmark in seconds (zero: run indefinitely).
    pub benchmark_duration_secs: u64,
    /// The fault schedule to apply to the testbed's nodes.
    pub faults: FaultsType,
    /// The working directory on the remote instances.
    pub working_dir: String,
    /// Where measurement results are stored locally.
    pub results_dir: String,
    /// Where log files are downloaded locally.
    pub logs_dir: String,
    /// Whether to use NVMe drives for storage when available.
    pub nvme: bool,
    /// Seconds between measurement collections.
    pub scrape_interval_secs: u64,
    /// Whether to download and analyze log files.
    pub log_processing: bool,
    /// Instances running only load generators (zero: collocated).
    pub dedicated_clients: usize,
    /// Whether to run a grafana and prometheus instance.
    pub monitoring: bool,
    /// Timeout of remote shell commands, in seconds.
    pub ssh_timeout_secs: u64,
    /// How often to retry a remote shell command.
    pub ssh_retries: usize,
}

} // verus!
