//! Read-only lookup over a table of ISO 3166-2 subdivision codes.
//!
//! A [`Table`] holds the records of countries and their subdivisions in
//! ascending order of code. Three queries read it: [`find`] looks a code up,
//! [`all_parents`] walks from a code up to its country, and [`drill_down`]
//! resolves a country code with the names of a region and a city to the most
//! specific record that matches.

pub mod ancestry;
pub mod drill;
pub mod encoding;
pub mod order;
pub mod record;
pub mod table;
pub mod text;

pub use ancestry::all_parents;
pub use drill::drill_down;
pub use record::Iso31662;
pub use table::{find, index_of, Table};
