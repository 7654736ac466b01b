//! Bandwidth reduction for sparse matrices stored in compressed sparse row
//! form: bandwidth and critical vertices, reverse Cuthill–McKee labelling and
//! reordering, and the reading of Matrix Market coordinate files.
//!
//! The multi-start search that would repeat local search and perturbation
//! from pseudo-peripheral vertices is not part of the library: the routines
//! it is built on (finding a pseudo-peripheral vertex, testing whether a
//! swap improves the bandwidth or a critical vertex) do not exist to build
//! it from.  The labelling runs from a given vertex instead.
use vstd::prelude::*;

pub mod candidates;
pub mod cmr;
pub mod cmr_variants;
pub mod coo;
pub mod csr;
pub mod from_coordinates;
pub mod ils;
pub mod mtx;
pub mod reorder;
pub mod reorder_laws;
pub mod seqs;

verus! {

} // verus!
