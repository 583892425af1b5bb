//! Verified search core for Minecraft block-offset coordinate finding.
pub mod mix;
pub mod seed;
pub mod inverse;
pub mod sample;
pub mod matching;
pub mod candidate;
pub mod ycache;
pub mod order;
pub mod scan;
pub mod api;
pub mod plan;
pub mod properties;
