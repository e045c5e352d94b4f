//! Passes over the parse tree of a chip.
pub mod optimization;
pub mod sequential;
pub mod portmap_dedupe;
