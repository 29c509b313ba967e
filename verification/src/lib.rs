//! An incremental, copying, semi-space garbage collector over an explicitly
//! modelled heap.
//!
//! The collector manages two semi-spaces of machine words. Objects carry a
//! one-word header encoding a tag and a field count; the fields that follow
//! are traced as object pointers. A cycle evacuates reachable objects from
//! from-space to to-space (Baker-style incremental copying): roots are
//! forwarded eagerly when the cycle begins, and each subsequent allocation
//! funds a proportional amount of scanning, so the cycle finishes before
//! to-space can fill up. Mutator loads go through a read barrier that
//! forwards lazily while a cycle is underway.
//!
//! The heap is a model: a pointer is a byte address into one of the two
//! spaces, and every load and store is a bounds-checked word access. This
//! makes the whole algorithm - allocation, cycle control, forwarding,
//! scanning, and the barriers - ordinary verified code.

pub mod gc;
pub mod layout;
pub mod render;
pub mod space;
pub mod tag;
