//! Epicycle animation core: discrete Fourier analysis of closed 2D paths and
//! evaluation of the resulting truncated Fourier series.
//!
//! All coordinates are fixed-point: a scalar is an `i128` counting steps of
//! `1 / 65536`. The transcendental ingredients (the unit vectors
//! `e^{2*pi*i*m/n}`) are supplied by the caller as precomputed tables, so
//! every function here is exact integer arithmetic with a full contract.
//!
//! - [`arith`]: truncating division, integer square root, bound lemmas.
//! - [`complex`]: the fixed-point complex number and its exact operations.
//! - [`dft`]: the transform engine with most-significant truncation.
//! - [`series`]: series evaluation, the epicycle chain, and the
//!   periodicity, chain-consistency and order-irrelevance laws.
//! - [`trail`]: the bounded, fading point history.
//! - [`scene`]: one reconstruction per path, and the shared-time step.

pub mod arith;
pub mod complex;
pub mod dft;
pub mod scene;
pub mod series;
pub mod trail;
