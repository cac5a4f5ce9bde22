//! Admission gates for recorded scan measurements: receipt validation and
//! the comparisons that accept or refuse a candidate against a baseline.
pub mod receipts;
pub mod gates;
