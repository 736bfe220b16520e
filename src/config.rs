//! Settings of a compilation.

use vstd::prelude::*;

verus! {

/// How a circuit is built: the target field, the simplification round budget,
/// and the switches of the simplification and export stages.
#[derive(Clone, Debug)]
pub struct BuildConfig {
    /// Maximum number of simplification rounds.
    pub no_rounds: usize,
    /// Export the substitutions made by simplification.
    pub flag_json_sub: bool,
    /// Substitution-based simplification only.
    pub flag_s: bool,
    /// Fast mode: no simplification, witness in depth-first order.
    pub flag_f: bool,
    /// Simplify independent subtrees in parallel.
    pub flag_p: bool,
    pub flag_verbose: bool,
    /// Report the warnings of the constraint analysis.
    pub inspect_constraints: bool,
    /// Name of the prime field.
    pub prime: String,
}

} // verus!
