//! A managed-memory runtime for a compiled language: a concurrent tri-colour
//! mark-sweep collector with hybrid write barriers, a safepoint protocol and
//! thread registration, verified with Verus.
//!
//! The runtime is kept as one explicit value, [`rt::gc::Runtime`], which
//! every entry point takes by reference. What it holds is modelled by
//! [`rt::model::State`], and each entry point's contract says which function
//! of the model it computes. Nothing here touches raw memory or parks a
//! thread: blocks come in as the addresses that the system allocator gave,
//! threads come in as handles, and what has to be freed, woken or waited for
//! is handed back to the caller.
//!
//! - [`rt`]: object headers, layout, allocation, the write barriers,
//!   safepoints and safe regions.
//! - [`rt::gc`]: the runtime's state, marking, root stacks, and the
//!   collector's phase machine.
//! - [`rt::thread`]: the thread counters and thread registration.
//! - [`rt::model`], [`rt::preserve`]: the model and the proofs that every
//!   operation keeps its invariant.
//! - [`rt::laws`], [`rt::reach`], [`rt::garbage`]: what follows for every
//!   run of the runtime: stable headers, bounded counters, transparent
//!   barriers, tri-colour safety, that nothing reachable is freed, and that
//!   what is out of reach is.
//! - [`rt::slab`], [`rt::chan`]: the slab and the channels that the runtime
//!   is built on, with the contracts that it relies on.

pub mod rt;
