//! Exact-arithmetic community-ecology statistics: mean nearest taxon distance
//! (MNTD), its randomization-based null model and standardized effect size
//! (NTI), and a niche density-difference index.
//!
//! All metric values are exact rationals ([`rat::Rat`]); callers convert
//! measured data to rationals at the boundary. Every computation either
//! returns the exact mathematical result or reports a typed error, never a
//! silent NaN or infinity.
pub mod ensemble;
pub mod error;
pub mod matrix;
pub mod mntd;
pub mod niche;
pub mod nti;
pub mod randomize;
pub mod rat;
