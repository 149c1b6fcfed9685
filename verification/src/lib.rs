//! Verified core of the token spending toolkit: the index, grouping and
//! decision logic behind wavelet padding, budget lookup, correlation
//! layout, community detection and spending-phase classification.

pub mod power_of_two;
pub mod wavelet;
pub mod names;
pub mod communities;
pub mod spectral;
pub mod conservation;
pub mod report;
pub mod data;
