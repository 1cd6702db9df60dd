//! Shared data types.

use vstd::prelude::*;

verus! {

/// One leg of a route: from one waypoint to the next along an airway,
/// a terminal procedure (`SID`, `STAR`) or a direct track (`DCT`).
/// `distance` is in thousandths of a nautical mile.
#[derive(Debug)]
pub struct Leg {
    pub from_name: String,
    pub to_name: String,
    pub route: String,
    pub distance: u64,
}

/// Version information of the navigation database.
#[derive(Debug, Clone)]
pub struct NavConfig {
    pub cycle_name: String,
    pub cycle_start: String,
    pub cycle_end: String,
}

impl Default for NavConfig {
    fn default() -> (cfg: NavConfig)
        ensures
            cfg.cycle_name@ == Seq::<char>::empty(),
            cfg.cycle_start@ == Seq::<char>::empty(),
            cfg.cycle_end@ == Seq::<char>::empty(),
    {
        NavConfig { cycle_name: String::new(), cycle_start: String::new(), cycle_end: String::new() }
    }
}

/// A navaid referenced by a terminal procedure.
#[derive(Debug, Clone)]
pub struct NavRef {
    pub ident: String,
    pub type_desc: String,
    pub freq_mhz: String,
}

} // verus!
