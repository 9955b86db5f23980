//! A verified exercise-logging library.
//!
//! The library keeps a collection of day entries, each grouping the
//! exercises logged on one calendar date, and offers the operations a
//! logging tool needs: adding an exercise under a date (merging into an
//! existing entry for that date), editing or deleting a single exercise,
//! summarising totals, validating numeric user input, and encoding or
//! decoding the collection as a structured text document.

pub mod clock;
pub mod codec;
pub mod input;
pub mod model;
pub mod store;
pub mod summary;
pub mod workflow;

pub use model::Collection;
pub use model::DayEntry;
pub use model::Exercise;
pub use store::DataFormatError;
pub use summary::LabelTotal;
pub use summary::Summary;
pub use workflow::InvalidInputError;
