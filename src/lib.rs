//! Personal spending tracker: a log of purchases, a product catalog, totals
//! by product, by category and by calendar month, and the JSON records that
//! a snapshot is stored as.

pub mod finance;
pub mod stats;
pub mod repository;
pub mod display;
