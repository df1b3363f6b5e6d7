// Reconciles MySQL server variables with an option file: a catalog of the
// variables that can be set at run time (`catalog`), the canonical forms that
// decide whether a desired value differs from the one in effect (`engine`),
// what those forms guarantee (`laws`), option-file entries and login settings
// (`options`), and the statements that apply a value (`statement`).
use vstd::prelude::*;

pub mod catalog;
pub mod engine;
pub mod laws;
pub mod options;
pub mod statement;
pub mod text;

verus! {

} // verus!
