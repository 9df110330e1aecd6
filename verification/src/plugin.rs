//! The mobility plugin: the name under which the simulation host registers
//! the mobility systems. Installing them into a world is the host's work.

use vstd::prelude::*;

verus! {

/// The mobility plugin.
#[derive(Debug, Clone, Copy, PartialEq, Eq, Default)]
pub struct MobilityPlugin;

/// `mobility`.
pub open spec fn mobility_name() -> Seq<char> {
    seq!['m', 'o', 'b', 'i', 'l', 'i', 't', 'y']
}

impl MobilityPlugin {
    /// The plugin's name, `mobility`.
    pub fn name(&self) -> (r: &'static str)
        ensures
            r@ == mobility_name(),
    {
        proof {
            reveal_strlit("mobility");
        }
        "mobility"
    }
}

} // verus!
