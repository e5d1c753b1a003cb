use vstd::prelude::*;

verus! {

/// Settings of fixed-point iteration for state inference.
pub struct FpiConfig {
    pub num_iter: usize,
}

impl Default for FpiConfig {
    /// Ten iterations.
    fn default() -> (c: Self)
        ensures
            c.num_iter == 10,
    {
        FpiConfig { num_iter: 10 }
    }
}

} // verus!
