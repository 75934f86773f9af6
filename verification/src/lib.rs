//! Building blocks of a retained-mode UI layout engine, verified.
//!
//! The crate holds the engine's value types and its solver core: view
//! descriptions compared by value, the change-tracking bitmask, the
//! constraint model, an arena of identity-addressed nodes with a proved
//! well-formedness invariant, subtree removal that cascades and reports
//! the slots it frees, the full-tree mask reset, and the iterative
//! flexible-space distribution algorithm with proofs of conservation,
//! capacity respect and epsilon stability. The measure/layout walks and
//! the reconciliation pass that would drive these pieces are not here.
//!
//! All lengths are fixed-point integers counting hundredths of a layout
//! unit, so the epsilon of one hundredth used by the flex algorithm is
//! the exact integer one.

pub mod change;
pub mod geom;
pub mod ui;
pub mod flexalg;
pub mod tree;
