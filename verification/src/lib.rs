//! A single-feature linear regression engine over fixed-point numbers.
//!
//! The crate fits a line (price as a function of mileage) by batch gradient
//! descent, normalizes the dataset to the unit square before training,
//! evaluates cost and accuracy metrics, and encodes/decodes the fitted
//! parameters as a durable one-line record.
//!
//! Every quantity is a real number held in micro-units: an `i64` count of
//! millionths (`fixed::SCALE` units per whole unit).  This keeps the whole
//! engine in exact integer arithmetic, so each operation has a precise
//! contract; divisions truncate toward zero, and the documented supported
//! range of values takes the place of floating-point infinities.

pub mod dataset;
pub mod decimal;
pub mod fixed;
pub mod linear_regression;
pub mod normalization;
pub mod params;
pub mod sidebar_settings;
