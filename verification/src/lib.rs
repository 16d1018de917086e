//! A set of disjoint, half-open intervals over a coordinate space that only
//! ever grows. Each stored interval carries an aggregate summary value
//! computed from the content it covers.

pub mod interval;
pub mod laws;
