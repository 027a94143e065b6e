//! Ingestion core of a terminal dashboard for Prometheus-style metrics:
//! the exposition-format decoder, the scrape history with its merge rules,
//! and the decisions of the scrape cycle.

pub mod config;
pub mod endpoint;
pub mod labels;
pub mod laws;
pub mod model;
pub mod navigation;
pub mod numbers;
pub mod parser;
pub mod scraper;
pub mod sorted;
pub mod text;
