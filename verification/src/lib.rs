//! A small contact book: an id-keyed record store together with a
//! comma-separated text format for saving and loading it.
//!
//! The store keeps at most one record per id and hands records out in
//! ascending id order; the text format writes one record per line under a
//! fixed header and, on loading, skips malformed lines while reporting them.

pub mod codec;
pub mod numeral;
pub mod store;
pub mod text;
