//! The subdivision record and its mathematical model.

use vstd::prelude::*;

verus! {

/// One entry of the reference table: a country or one of its subdivisions.
#[derive(Debug, Clone, Copy)]
pub struct Iso31662 {
    /// Unique code, `"<COUNTRY>"` or `"<COUNTRY>-<SUFFIX>"`.
    pub code: &'static str,
    /// Display name. Not unique across the table.
    pub name: &'static str,
    /// Kind of subdivision (province, state, region, ...).
    pub division: &'static str,
    /// Code of the enclosing record, `None` for a country.
    pub parent: Option<&'static str>,
    /// Latitude in degrees, as the bit pattern of an IEEE 754 single.
    pub lat: Option<u32>,
    /// Longitude in degrees, as the bit pattern of an IEEE 754 single.
    pub lng: Option<u32>,
}

/// What a record says: each text as the sequence of its characters.
pub struct Subdivision {
    pub code: Seq<char>,
    pub name: Seq<char>,
    pub division: Seq<char>,
    pub parent: Option<Seq<char>>,
    pub lat: Option<u32>,
    pub lng: Option<u32>,
}

impl View for Iso31662 {
    type V = Subdivision;

    open spec fn view(&self) -> Subdivision {
        Subdivision {
            code: self.code@,
            name: self.name@,
            division: self.division@,
            parent: match self.parent {
                Some(p) => Some(p@),
                None => None,
            },
            lat: self.lat,
            lng: self.lng,
        }
    }
}

/// The models of a run of records, in order.
pub open spec fn views(records: Seq<Iso31662>) -> Seq<Subdivision> {
    Seq::new(records.len(), |i: int| records[i]@)
}

} // verus!
