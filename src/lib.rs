//! Natural-order comparison of strings: runs of decimal digits compare by
//! numeric value, everything else by code point.
pub mod digits;
pub mod laws;
pub mod natural;
pub mod segment;

pub use natural::{cmp_digit_str, natural_cmp};
pub use segment::{StringElement, StringElementIter};
