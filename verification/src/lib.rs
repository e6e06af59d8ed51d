//! An integer lattice of eight sites with reversible dynamics and a two-pass
//! admission gate for momentum transactions, all in two's-complement `i64`
//! arithmetic so that every step can be undone bit for bit.
pub mod admission;
pub mod arith;
pub mod batch_laws;
pub mod decisions;
pub mod lattice;
pub mod lifting;
pub mod ordering;
pub mod xrpl_feed;

pub use admission::{
    AdmissionResult, RejectedRecord, RejectionCause, Transaction, E_MAX, P_SITE_MAX, compute_q_metric,
    process_batch, try_process_batch, unwind_admitted,
};
pub use lattice::{KAPPA, LatticeState, M, inverse_symplectic_step, symplectic_step};
pub use lifting::{forward_lifting_ntt, inverse_lifting_ntt};
