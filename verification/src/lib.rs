//! A small persistence layer for named scenario records together with a
//! deterministic pension-benefit calculation.
//!
//! The store keeps scenario records keyed by an opaque identifier and hands
//! them back ordered by their last-update timestamp; the calculator applies a
//! two-branch eligibility rule to fixed-point inputs.

pub mod order;
pub mod pension;
pub mod scenario;
pub mod store;
