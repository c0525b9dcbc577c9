//! The entry index and match engine of an application launcher: a collated
//! index of launchable applications and a ranking of them against a query.
pub mod collator;
pub mod index;
pub mod rank;
pub mod text;
