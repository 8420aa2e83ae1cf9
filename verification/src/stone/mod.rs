//! Stone realizability over finite universes: filtering of the operations that separate
//! the subuniverses and partial isomorphisms of a specification.

pub mod discriminator;
pub mod sets;
pub mod spec;
pub mod preserve;
pub mod report;
pub mod filter;
pub mod gap_filter;
