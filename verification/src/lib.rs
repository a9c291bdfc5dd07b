//! A grounded reasoning executor with replayable proofs.
//!
//! A plan — a sequence of symbolic operations — is run deterministically
//! against a certified mathematical universe (reduced rationals in a box,
//! bounded triangles, Boolean functions of small arity), producing a
//! cryptographic transcript that an independent verifier can replay
//! bit for bit.

pub mod boolfun;
pub mod digest;
pub mod exec;
pub mod geom;
pub mod laws;
pub mod proposer;
pub mod qe;
pub mod semtrace;
pub mod sort;
pub mod strnum;
pub mod verify;

use vstd::prelude::*;

verus! {

} // verus!
