//! Delivery orders of a small logistics network: the lifecycle of delivery
//! attempts, queries over orders, and a regional summary of completions.
pub mod models;
pub mod text;
pub mod lifecycle;
pub mod services;
