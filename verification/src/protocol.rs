use vstd::prelude::*;
use vstd::string::StringExecFns;
use crate::config::{ClientParameters, NodeParameters};
use crate::settings::Settings;

verus! {

/// Node parameters as the benchmark harness carries them.
pub struct MysticetiNodeParameters {
    pub parameters: NodeParameters,
}

impl MysticetiNodeParameters {
    /// The short tag naming the mode in benchmark identifiers.
    pub fn mode_tag(&self) -> (tag: &'static str)
        ensures
            self.parameters.consensus_only ==> tag@ == "c"@,
            !self.parameters.consensus_only ==> tag@ == "fpc"@,
    {
        if self.parameters.consensus_only {
            "c"
        } else {
            "fpc"
        }
    }

    /// The human-readable mode name.
    pub fn mode_name(&self) -> (name: &'static str)
        ensures
            self.parameters.consensus_only ==> name@ == "Consensus-only mode"@,
            !self.parameters.consensus_only ==> name@ == "FPC mode"@,
    {
        if self.parameters.consensus_only {
            "Consensus-only mode"
        } else {
            "FPC mode"
        }
    }
}

/// Client parameters as the benchmark harness carries them.
pub struct MysticetiClientParameters {
    pub parameters: ClientParameters,
}

/// Computes the shell commands the benchmark harness runs on the testbed;
/// running them is the (external) transport layer's business.
pub struct MysticetiProtocol {
    pub working_dir: String,
}

impl MysticetiProtocol {
    /// A command generator working under the settings' working directory.
    pub fn new(settings: &Settings) -> (protocol: MysticetiProtocol)
        ensures
            protocol.working_dir@ == settings.working_dir@,
    {
        MysticetiProtocol { working_dir: settings.working_dir.clone() }
    }

    /// The extra packages the protocol needs on each instance.
    pub fn protocol_dependencies(&self) -> (commands: Vec<&'static str>)
        ensures
            commands.deep_view() =~= seq!["sudo apt -y install libfontconfig1-dev"@],
    {
        let mut commands: Vec<&'static str> = Vec::new();
        commands.push("sudo apt -y install libfontconfig1-dev");
        commands
    }

    /// The storage directories to wipe between runs.
    pub fn db_directories(&self) -> (dirs: Vec<String>)
        ensures
            dirs.deep_view() =~= seq![self.working_dir@ + "/storage-*"@],
    {
        let mut dir = self.working_dir.clone();
        dir.append("/storage-*");
        let mut dirs: Vec<String> = Vec::new();
        dirs.push(dir);
        dirs
    }
}

} // verus!
