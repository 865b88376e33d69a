//! Which meeting rooms are free for a time window today?
//!
//! The crate models rooms and their reservations, decodes the length of a
//! reservation from the pixel width of its timeline element, resolves
//! `HH:MM` arguments into a query window, reads rooms and reservations out of
//! a timeline page, and selects the rooms that no reservation blocks.

pub mod availability;
pub mod clock;
pub mod decimal;
pub mod duration;
pub mod markup;
pub mod scrape;
pub mod text;
