//! Verified core of a freedesktop icon-name resolver.
//!
//! The library resolves a logical application or icon name to a concrete
//! image file path, following the icon-theme convention: theme inheritance
//! chains, size-bucket directories, SVG/PNG candidates ranked by a total
//! order, an on-disk cache with staleness detection, and a fallback
//! name-variation search.  All filesystem, environment and process I/O is
//! left to the embedding program, which hands the library plain values.

pub mod chain;
pub mod codec;
pub mod entry;
pub mod icon_map;
pub mod num;
pub mod record;
pub mod resolver;
pub mod scan;
pub mod theme_index;
pub mod text;

pub use entry::IconEntry;
pub use resolver::IconResolver;
