use vstd::prelude::*;
use crate::instance::{Instance, InstanceView};

verus! {

/// The fault schedule to apply to a testbed's nodes.
pub enum FaultsType {
    /// Permanently crash the given number of nodes from the beginning.
    Permanent { faults: usize },
    /// Progressively crash and recover nodes, waiting the given number of
    /// seconds between steps.
    CrashRecovery { max_faults: usize, interval_secs: u64 },
}

impl Default for FaultsType {
    fn default() -> (faults: FaultsType)
        ensures
            faults == (FaultsType::Permanent { faults: 0 }),
    {
        FaultsType::Permanent { faults: 0 }
    }
}

impl FaultsType {
    /// The interval between crashes, in seconds. A permanent schedule
    /// crashes its nodes as fast as possible.
    pub fn crash_interval(&self) -> (secs: u64)
        ensures
            secs == match *self {
                FaultsType::Permanent { .. } => 1u64,
                FaultsType::CrashRecovery { interval_secs, .. } => interval_secs,
            },
    {
        match self {
            FaultsType::Permanent { .. } => 1,
            FaultsType::CrashRecovery { interval_secs, .. } => *interval_secs,
        }
    }
}

/// The action to apply to the testbed: which instances to boot and which to
/// kill.
pub struct CrashRecoveryAction {
    /// The instances to boot.
    pub boot: Vec<Instance>,
    /// The instances to kill.
    pub kill: Vec<Instance>,
}

impl CrashRecoveryAction {
    /// Boot the given instances.
    pub fn boot(instances: Vec<Instance>) -> (action: CrashRecoveryAction)
        ensures
            action.boot.deep_view() == instances.deep_view(),
            action.kill.deep_view() =~= Seq::<InstanceView>::empty(),
    {
        let action = CrashRecoveryAction { boot: instances, kill: Vec::new() };
        proof {
            assert(action.kill.deep_view() =~= Seq::<InstanceView>::empty());
        }
        action
    }

    /// Kill the given instances.
    pub fn kill(instances: Vec<Instance>) -> (action: CrashRecoveryAction)
        ensures
            action.kill.deep_view() == instances.deep_view(),
            action.boot.deep_view() =~= Seq::<InstanceView>::empty(),
    {
        let action = CrashRecoveryAction { boot: Vec::new(), kill: instances };
        proof {
            assert(action.boot.deep_view() =~= Seq::<InstanceView>::empty());
        }
        action
    }

    /// Touch nothing.
    pub fn no_op() -> (action: CrashRecoveryAction)
        ensures
            action.boot.deep_view() =~= Seq::<InstanceView>::empty(),
            action.kill.deep_view() =~= Seq::<InstanceView>::empty(),
    {
        let action = CrashRecoveryAction { boot: Vec::new(), kill: Vec::new() };
        proof {
            assert(action.boot.deep_view() =~= Seq::<InstanceView>::empty());
            assert(action.kill.deep_view() =~= Seq::<InstanceView>::empty());
        }
        action
    }
}

/// Copies of the instances at positions `l..h`.
fn instance_slice(instances: &Vec<Instance>, l: usize, h: usize) -> (slice: Vec<Instance>)
    requires
        l <= h <= instances.deep_view().len(),
    ensures
        slice.deep_view() =~= instances.deep_view().subrange(l as int, h as int),
{
    let mut slice: Vec<Instance> = Vec::new();
    let mut i: usize = l;
    while i < h
        invariant
            l <= i <= h <= instances.deep_view().len(),
            slice.deep_view() =~= instances.deep_view().subrange(l as int, i as int),
        decreases h - i,
    {
        let ghost pre = slice.deep_view();
        slice.push(instances[i].duplicate());
        proof {
            assert(slice.deep_view() =~= pre.push(instances.deep_view()[i as int]));
            assert(slice.deep_view() =~= instances.deep_view().subrange(l as int, i + 1));
        }
        i = i + 1;
    }
    slice
}

/// Drives a fault schedule over a fixed set of instances: each call of
/// `update` says which instances to crash or recover next.
pub struct CrashRecoverySchedule {
    /// The schedule to follow.
    faults_type: FaultsType,
    /// The instances available to crash and recover.
    instances: Vec<Instance>,
    /// How many nodes are currently dead.
    dead: usize,
}

impl CrashRecoverySchedule {
    pub closed spec fn faults_type_spec(self) -> FaultsType {
        self.faults_type
    }

    pub closed spec fn instances_spec(self) -> Seq<InstanceView> {
        self.instances.deep_view()
    }

    pub closed spec fn dead_spec(self) -> int {
        self.dead as int
    }

    /// The schedule never names more faults than it has instances, and the
    /// dead counter only ever takes the values the schedule steps through.
    pub open spec fn valid(self) -> bool {
        &&& self.instances_spec().len() <= 0x10000000
        &&& match self.faults_type_spec() {
            FaultsType::Permanent { faults } => faults <= self.instances_spec().len() && (
            self.dead_spec() == 0 || self.dead_spec() == faults),
            FaultsType::CrashRecovery { max_faults, .. } => {
                let min_faults = max_faults as int / 3;
                &&& max_faults <= self.instances_spec().len()
                &&& (self.dead_spec() == 0 || self.dead_spec() == min_faults || self.dead_spec()
                    == 2 * min_faults || self.dead_spec() == max_faults)
            },
        }
    }

    pub fn new(faults_type: FaultsType, instances: Vec<Instance>) -> (schedule: CrashRecoverySchedule)
        requires
            instances.deep_view().len() <= 0x10000000,
            match faults_type {
                FaultsType::Permanent { faults } => faults <= instances.deep_view().len(),
                FaultsType::CrashRecovery { max_faults, .. } => max_faults
                    <= instances.deep_view().len(),
            },
        ensures
            schedule.valid(),
            schedule.faults_type_spec() == faults_type,
            schedule.instances_spec() == instances.deep_view(),
            schedule.dead_spec() == 0,
    {
        CrashRecoverySchedule { faults_type, instances, dead: 0 }
    }

    /// One step of the schedule.
    ///
    /// A permanent schedule kills its nodes once and then rests. A
    /// crash-recovery schedule walks through thirds of its fault budget:
    /// it kills a few nodes at a time and, once the whole budget is dead,
    /// recovers them all.
    pub fn update(&mut self) -> (action: CrashRecoveryAction)
        requires
            old(self).valid(),
        ensures
            final(self).valid(),
            final(self).faults_type_spec() == old(self).faults_type_spec(),
            final(self).instances_spec() == old(self).instances_spec(),
            match old(self).faults_type_spec() {
                FaultsType::Permanent { faults } => if old(self).dead_spec() == 0 {
                    &&& final(self).dead_spec() == faults
                    &&& action.kill.deep_view() == old(self).instances_spec().subrange(
                        0,
                        faults as int,
                    )
                    &&& action.boot.deep_view() == Seq::<InstanceView>::empty()
                } else {
                    &&& final(self).dead_spec() == old(self).dead_spec()
                    &&& action.kill.deep_view() == Seq::<InstanceView>::empty()
                    &&& action.boot.deep_view() == Seq::<InstanceView>::empty()
                },
                FaultsType::CrashRecovery { max_faults, .. } => {
                    let min_faults = max_faults as int / 3;
                    if old(self).dead_spec() == max_faults {
                        &&& final(self).dead_spec() == 0
                        &&& action.boot.deep_view() == old(self).instances_spec().subrange(
                            0,
                            max_faults as int,
                        )
                        &&& action.kill.deep_view() == Seq::<InstanceView>::empty()
                    } else {
                        let l = if old(self).dead_spec() == 0 && min_faults != 0 {
                            0int
                        } else if old(self).dead_spec() == min_faults && min_faults != 0 {
                            min_faults
                        } else {
                            2 * min_faults
                        };
                        let h = if old(self).dead_spec() == 0 && min_faults != 0 {
                            min_faults
                        } else if old(self).dead_spec() == min_faults && min_faults != 0 {
                            2 * min_faults
                        } else {
                            max_faults as int
                        };
                        &&& final(self).dead_spec() == old(self).dead_spec() + h - l
                        &&& action.kill.deep_view() == old(self).instances_spec().subrange(l, h)
                        &&& action.boot.deep_view() == Seq::<InstanceView>::empty()
                    }
                },
            },
    {
        match &self.faults_type {
            // Permanently crash the specified number of nodes.
            FaultsType::Permanent { faults } => {
                let faults = *faults;
                if self.dead == 0 {
                    self.dead = faults;
                    CrashRecoveryAction::kill(instance_slice(&self.instances, 0, faults))
                } else {
                    CrashRecoveryAction::no_op()
                }
            },
            // Periodically crash and recover nodes.
            FaultsType::CrashRecovery { max_faults, .. } => {
                let max_faults = *max_faults;
                let min_faults = max_faults / 3;

                // Recover all nodes if we already crashed them all.
                if self.dead == max_faults {
                    let to_recover = instance_slice(&self.instances, 0, max_faults);
                    self.dead = 0;
                    CrashRecoveryAction::boot(to_recover)
                } else {
                    // Otherwise crash a few nodes at a time.
                    let (l, h) = if self.dead == 0 && min_faults != 0 {
                        (0, min_faults)
                    } else if self.dead == min_faults && min_faults != 0 {
                        (min_faults, 2 * min_faults)
                    } else {
                        (2 * min_faults, max_faults)
                    };
                    proof {
                        assert(2 * (max_faults as int / 3) <= max_faults as int);
                    }
                    let to_kill = instance_slice(&self.instances, l, h);
                    self.dead = self.dead + (h - l);
                    CrashRecoveryAction::kill(to_kill)
                }
            },
        }
    }
}

} // verus!
