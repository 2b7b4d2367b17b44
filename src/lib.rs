//! Resolves a retailer's possibly-malformed barcode to the set of plausible
//! canonical UPC/EAN forms, and merges catalog matches found for each form.
pub mod album;
pub mod lookup;
pub mod normalize;
pub mod upc;
