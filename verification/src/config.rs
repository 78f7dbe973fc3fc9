pub mod node_defaults;

use vstd::prelude::*;
use vstd::string::StringExecFns;
use crate::types::{AuthorityIndex, RoundNumber};

verus! {

/// Node-level protocol parameters. Durations are carried as whole seconds;
/// the surrounding process turns them into wall-clock timeouts.
pub struct NodeParameters {
    pub wave_length: RoundNumber,
    pub leader_timeout_secs: u64,
    pub rounds_in_epoch: RoundNumber,
    pub shutdown_grace_period_secs: u64,
    pub number_of_leaders: usize,
    pub enable_pipelining: bool,
    pub consensus_only: bool,
}

impl NodeParameters {
    /// The documented default parameters.
    pub fn new_default() -> (p: NodeParameters)
        ensures
            p.wave_length == node_defaults::default_wave_length_spec(),
            p.leader_timeout_secs == node_defaults::default_leader_timeout_spec(),
            p.rounds_in_epoch == node_defaults::default_rounds_in_epoch_spec(),
            p.shutdown_grace_period_secs == node_defaults::default_shutdown_grace_period_spec(),
            p.number_of_leaders == node_defaults::default_number_of_leaders_spec(),
            p.enable_pipelining == node_defaults::default_enable_pipelining_spec(),
            p.consensus_only == node_defaults::default_consensus_only_spec(),
    {
        NodeParameters {
            wave_length: node_defaults::default_wave_length(),
            leader_timeout_secs: node_defaults::default_leader_timeout(),
            rounds_in_epoch: node_defaults::default_rounds_in_epoch(),
            shutdown_grace_period_secs: node_defaults::default_shutdown_grace_period(),
            number_of_leaders: node_defaults::default_number_of_leaders(),
            enable_pipelining: node_defaults::default_enable_pipelining(),
            consensus_only: node_defaults::default_consensus_only(),
        }
    }
}

impl Default for NodeParameters {
    fn default() -> (p: NodeParameters)
        ensures
            p.wave_length == node_defaults::default_wave_length_spec(),
            p.leader_timeout_secs == node_defaults::default_leader_timeout_spec(),
            p.rounds_in_epoch == node_defaults::default_rounds_in_epoch_spec(),
            p.shutdown_grace_period_secs == node_defaults::default_shutdown_grace_period_spec(),
            p.number_of_leaders == node_defaults::default_number_of_leaders_spec(),
            p.enable_pipelining == node_defaults::default_enable_pipelining_spec(),
            p.consensus_only == node_defaults::default_consensus_only_spec(),
    {
        NodeParameters::new_default()
    }
}

/// Parameters of the benchmark load clients.
pub struct ClientParameters {
    /// The number of transactions to send to the network per second.
    pub load: usize,
    /// The size of transactions to send to the network in bytes.
    pub transaction_size: usize,
    /// The initial delay before starting to send transactions, in seconds.
    pub initial_delay_secs: u64,
}

impl Default for ClientParameters {
    fn default() -> (p: ClientParameters)
        ensures
            p.load == 10,
            p.transaction_size == 512,
            p.initial_delay_secs == 10,
    {
        ClientParameters { load: 10, transaction_size: 512, initial_delay_secs: 10 }
    }
}

/// Private, per-validator configuration: who the validator is and where it
/// keeps its state. Key material lives with the (external) cryptographic
/// layer.
pub struct NodePrivateConfig {
    pub authority: AuthorityIndex,
    pub storage_path: String,
}

impl NodePrivateConfig {
    /// One configuration per authority, each storing under
    /// `<working_dir>/<default storage path>`.
    pub fn new_for_benchmarks(working_dir: &str, committee_size: u64) -> (configs: Vec<
        NodePrivateConfig,
    >)
        ensures
            configs@.len() == committee_size,
            forall|i: int| 0 <= i < configs@.len() ==> (#[trigger] configs@[i]).authority == i,
            forall|i: int|
                0 <= i < configs@.len() ==> (#[trigger] configs@[i]).storage_path@
                    == working_dir@ + "/"@ + "storage-"@ + crate::util::dec_digits(i as nat),
    {
        let mut configs: Vec<NodePrivateConfig> = Vec::new();
        let mut i: u64 = 0;
        while i < committee_size
            invariant
                i <= committee_size,
                configs@.len() == i,
                forall|j: int| 0 <= j < configs@.len() ==> (#[trigger] configs@[j]).authority == j,
                forall|j: int|
                    0 <= j < configs@.len() ==> (#[trigger] configs@[j]).storage_path@
                        == working_dir@ + "/"@ + "storage-"@ + crate::util::dec_digits(j as nat),
            decreases committee_size - i,
        {
            let mut path = working_dir.to_owned();
            path.append("/");
            let storage = Self::default_storage_path(i);
            path.append(storage.as_str());
            proof {
                assert(path@ =~= working_dir@ + "/"@ + "storage-"@ + crate::util::dec_digits(
                    i as nat,
                ));
            }
            configs.push(NodePrivateConfig { authority: i, storage_path: path });
            i = i + 1;
        }
        configs
    }

    /// The file name under which an authority's configuration is stored.
    pub fn default_filename(authority: AuthorityIndex) -> (name: String)
        ensures
            name@ == "val-"@ + crate::util::dec_digits(authority as nat) + ".yaml"@,
    {
        let mut name = "val-".to_owned();
        let digits = crate::util::u64_to_string(authority);
        name.append(digits.as_str());
        name.append(".yaml");
        name
    }

    /// The directory under which an authority stores its state.
    pub fn default_storage_path(authority: AuthorityIndex) -> (path: String)
        ensures
            path@ == "storage-"@ + crate::util::dec_digits(authority as nat),
    {
        let mut path = "storage-".to_owned();
        let digits = crate::util::u64_to_string(authority);
        path.append(digits.as_str());
        path
    }

    /// Where certified transactions are logged.
    pub fn certified_transactions_log(&self) -> (path: String)
        ensures
            path@ == self.storage_path@ + "/certified.txt"@,
    {
        let mut path = self.storage_path.clone();
        path.append("/certified.txt");
        path
    }

    /// Where committed transactions are logged.
    pub fn committed_transactions_log(&self) -> (path: String)
        ensures
            path@ == self.storage_path@ + "/committed.txt"@,
    {
        let mut path = self.storage_path.clone();
        path.append("/committed.txt");
        path
    }

    /// Where the write-ahead log lives.
    pub fn wal(&self) -> (path: String)
        ensures
            path@ == self.storage_path@ + "/wal"@,
    {
        let mut path = self.storage_path.clone();
        path.append("/wal");
        path
    }
}

} // verus!
