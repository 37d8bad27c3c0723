//! Enumeration of interaction structures on `n` states, up to relabeling of
//! the states.
//!
//! An interaction is given by a lattice of integer conserved quantities; the
//! pairs of states on which every quantity takes the same summed value form
//! its collision channels (edge classes).

pub mod combinatorics;
pub mod interaction;
pub mod registry;

pub use interaction::Interaction;
pub use registry::InteractionsModEquiv;
