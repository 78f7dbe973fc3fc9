use vstd::prelude::*;
use vstd::string::StringExecFns;

verus! {

/// Mathematical image of a testbed instance.
pub struct InstanceView {
    pub id: Seq<char>,
    pub region: Seq<char>,
    pub main_ip: Seq<char>,
    pub specs: Seq<char>,
}

/// A testbed machine, as the orchestration layer sees it: a name, where it
/// runs and what hardware it carries. Addresses are plain strings; only the
/// (external) transport layer interprets them.
pub struct Instance {
    pub id: String,
    pub region: String,
    pub main_ip: String,
    pub specs: String,
}

impl View for Instance {
    type V = InstanceView;

    open spec fn view(&self) -> InstanceView {
        InstanceView {
            id: self.id@,
            region: self.region@,
            main_ip: self.main_ip@,
            specs: self.specs@,
        }
    }
}

impl DeepView for Instance {
    type V = InstanceView;

    open spec fn deep_view(&self) -> InstanceView {
        self@
    }
}

impl Instance {
    /// A bare instance carrying only a name.
    pub fn new_for_test(id: String) -> (instance: Instance)
        ensures
            instance@.id == id@,
            instance@.region == ""@,
            instance@.main_ip == ""@,
            instance@.specs == ""@,
    {
        Instance {
            id,
            region: "".to_owned(),
            main_ip: "".to_owned(),
            specs: "".to_owned(),
        }
    }

    /// An owned copy describing the same machine.
    pub fn duplicate(&self) -> (copy: Instance)
        ensures
            copy@ == self@,
    {
        Instance {
            id: self.id.clone(),
            region: self.region.clone(),
            main_ip: self.main_ip.clone(),
            specs: self.specs.clone(),
        }
    }
}

} // verus!
