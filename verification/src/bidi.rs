//! Arabic and Hebrew text reconstruction for PDF extraction.
//!
//! PDF text is often stored in visual page order.  This module turns it back
//! into logical order while keeping each output piece tied to the source
//! element it came from.
pub mod unicode;
pub mod scripts;
pub mod protect;
pub mod spans;
pub mod inverse;
pub mod lines;
pub mod text;
pub mod words;
