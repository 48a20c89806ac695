//! Aggregation core for a country-availability proxy: extracting country
//! records from loosely shaped upstream pages, merging them into a sorted,
//! deduplicated list, driving pagination, and deciding between real data,
//! a configured stub, and a degraded fallback.

pub mod config;
pub mod extract;
pub mod json;
pub mod merge;
pub mod models;
pub mod pagination;
pub mod text;
pub mod worldmobile;
