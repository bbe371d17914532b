//! The configuration of a run.

use vstd::prelude::*;

verus! {

/// The root document's file, the SKU template and the ignore groups,
/// each written as comma-separated `component:variant` conditions.
#[derive(Debug, Clone)]
pub struct Manifest {
    pub root: String,
    pub sku: String,
    pub ignore: Vec<String>,
}

} // verus!
