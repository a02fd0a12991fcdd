//! Descriptive statistics on sequences of numbers.
//!
//! The arithmetic itself (mean, standard deviation, norm) is floating point and
//! lives with the callers; this library holds the parts that can be stated and
//! proved over integers: an order on `f64` bit patterns and the selection of the
//! lower median under that order.
pub mod order;
pub mod median;
