//! Round-trip train search: candidate travel dates, decoded train listings,
//! and the priced journeys that pass a traveller's filter.

pub mod date;
pub mod ordering;
pub mod trains;
