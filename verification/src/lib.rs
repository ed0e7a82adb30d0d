//! Collection of the rows a list scan visits, for distance range search.
//!
//! A scan kernel decides which rows it visits and what distance it computes for
//! each. What happens to a visited row is the business of a
//! [`collect::Collector`], the seam between the two.
//! [`collect::RangeCollector`] keeps the rows whose distance lies in a
//! half-open band, counts the rows that were read, and tells the kernel at
//! which partial distance a row can be given up early.
//!
//! Distances are IEEE 754 single-precision numbers, carried by their bit
//! pattern ([`single::Single`]) and understood as integers: every finite single
//! is a whole multiple of the smallest one.
pub mod band;
pub mod collect;
pub mod error;
pub mod margin;
pub mod rounding;
pub mod scan;
pub mod single;
pub mod threshold;
