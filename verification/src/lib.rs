//! Layout analysis support for PDF text extraction: logical-order
//! reconstruction of right-to-left text, compact identifiers for layout
//! arenas, spatial grouping keys and table-extraction helpers.
pub mod bidi;
pub mod spatial;
pub mod frontier;
pub mod arena;
pub mod model;
pub mod table;
pub mod elements;
pub mod intersections;
pub mod grouping;
pub mod cells;
pub mod cellmatch;
pub mod clustering;
