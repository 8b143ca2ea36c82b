//! Single-feature linear regression trained by batch gradient descent,
//! together with a z-score standardization utility, computed over exact
//! rational arithmetic.
//!
//! Every numeric routine either returns the exact mathematical result or
//! reports that an intermediate value left the machine-representable range;
//! the contracts pin down both outcomes precisely.

pub mod rat;
pub mod regression;
pub mod normalization;
