//! Resolution of a country, a region name and a city name to one record.

use crate::encoding::{same_text, text_under};
use crate::record::{views, Iso31662, Subdivision};
use crate::table::{ascending, index_of, position, Table};
use crate::text::{code_lt, code_under, lemma_past_country, lemma_under_not_before};
use vstd::prelude::*;

verus! {

/// Record `r` lies under `country` and is called `name`, character for
/// character.
pub open spec fn named_under(r: Subdivision, country: Seq<char>, name: Seq<char>) -> bool {
    code_under(r.code, country) && r.name == name
}

/// Some record of `t` lies under `country` and is called `name`.
pub open spec fn occurs(t: Seq<Subdivision>, country: Seq<char>, name: Seq<char>) -> bool {
    exists|i: int| 0 <= i < t.len() && named_under(#[trigger] t[i], country, name)
}

/// Index `i` is the first in `t` whose record lies under `country` and is
/// called `name`.
pub open spec fn first_named_at(
    t: Seq<Subdivision>,
    country: Seq<char>,
    name: Seq<char>,
    i: int,
) -> bool {
    &&& 0 <= i < t.len()
    &&& named_under(t[i], country, name)
    &&& forall|j: int| 0 <= j < i ==> !named_under(#[trigger] t[j], country, name)
}

/// The first index in `t` whose record lies under `country` and is called
/// `name`, if there is such a record.
pub open spec fn first_named(t: Seq<Subdivision>, country: Seq<char>, name: Seq<char>) -> Option<
    int,
> {
    if exists|i: int| first_named_at(t, country, name, i) {
        Some(choose|i: int| first_named_at(t, country, name, i))
    } else {
        None
    }
}

/// The index that a country code, a region name and a city name resolve to:
/// nothing where the table does not hold the country; else the first record
/// under the country called `city`; else, where no record under the country
/// has that name, the first one called `administrative`.
pub open spec fn resolution(
    t: Seq<Subdivision>,
    country: Seq<char>,
    administrative: Seq<char>,
    city: Seq<char>,
) -> Option<int> {
    if position(t, country) is None {
        None
    } else if first_named(t, country, city) is Some {
        first_named(t, country, city)
    } else {
        first_named(t, country, administrative)
    }
}

/// The record at index `start` of `t` is the country's own.
pub open spec fn country_at(t: Seq<Subdivision>, country: Seq<char>, start: int) -> bool {
    0 <= start < t.len() && t[start].code == country
}

/// No record ahead of a country's own lies under that country.
pub proof fn lemma_before_country(t: Seq<Subdivision>, country: Seq<char>, start: int)
    requires
        ascending(t),
        country_at(t, country, start),
    ensures
        forall|j: int| 0 <= j < start ==> !code_under(#[trigger] t[j].code, country),
{
    assert forall|j: int| 0 <= j < start implies !code_under(#[trigger] t[j].code, country) by {
        if code_under(t[j].code, country) {
            lemma_under_not_before(t[j].code, country);
        }
    }
}

/// Behind a country's own record, the first record that lies outside the
/// country ends it: no later record lies under the country. So the records
/// under a country are one unbroken run that begins with the country's own.
pub proof fn lemma_after_country(t: Seq<Subdivision>, country: Seq<char>, start: int, end: int)
    requires
        ascending(t),
        country_at(t, country, start),
        start <= end < t.len(),
        !code_under(t[end].code, country),
    ensures
        forall|j: int| end <= j < t.len() ==> !code_under(#[trigger] t[j].code, country),
{
    assert forall|j: int| end <= j < t.len() implies !code_under(#[trigger] t[j].code, country) by {
        if end < j {
            lemma_past_country(country, t[end].code, t[j].code);
        }
    }
}

/// Where some record under `country` is called `name`, there is a first one,
/// and it stands no later than any other.
pub proof fn lemma_first_named_found(
    t: Seq<Subdivision>,
    country: Seq<char>,
    name: Seq<char>,
    i: int,
)
    requires
        0 <= i < t.len(),
        named_under(t[i], country, name),
    ensures
        first_named(t, country, name) matches Some(k) && k <= i && first_named_at(
            t,
            country,
            name,
            k,
        ),
    decreases i,
{
    if exists|j: int| 0 <= j < i && named_under(#[trigger] t[j], country, name) {
        let j = choose|j: int| 0 <= j < i && named_under(#[trigger] t[j], country, name);
        lemma_first_named_found(t, country, name, j);
    } else {
        assert(first_named_at(t, country, name, i));
    }
}

/// An unknown country resolves to nothing, whatever the names are.
pub proof fn lemma_resolution_of_unknown_country(
    t: Seq<Subdivision>,
    country: Seq<char>,
    administrative: Seq<char>,
    city: Seq<char>,
)
    requires
        position(t, country) is None,
    ensures
        resolution(t, country, administrative, city) is None,
{
}

/// Where the table holds the country and a record under it is called `city`,
/// the resolution is the first record under the country of that name,
/// whatever `administrative` is.
pub proof fn lemma_resolution_prefers_city(
    t: Seq<Subdivision>,
    country: Seq<char>,
    administrative: Seq<char>,
    city: Seq<char>,
    i: int,
)
    requires
        position(t, country) is Some,
        0 <= i < t.len(),
        named_under(t[i], country, city),
    ensures
        resolution(t, country, administrative, city) matches Some(k) && k <= i && first_named_at(
            t,
            country,
            city,
            k,
        ),
{
    lemma_first_named_found(t, country, city, i);
}

/// Where the table holds the country, no record under it is called `city`,
/// and one is called `administrative`, the resolution is the first record
/// under the country called `administrative`.
pub proof fn lemma_resolution_falls_back(
    t: Seq<Subdivision>,
    country: Seq<char>,
    administrative: Seq<char>,
    city: Seq<char>,
    i: int,
)
    requires
        position(t, country) is Some,
        !occurs(t, country, city),
        0 <= i < t.len(),
        named_under(t[i], country, administrative),
    ensures
        resolution(t, country, administrative, city) matches Some(k) && k <= i && first_named_at(
            t,
            country,
            administrative,
            k,
        ),
{
    lemma_first_named_found(t, country, administrative, i);
}

/// Where neither name occurs under the country, the resolution is nothing.
pub proof fn lemma_resolution_without_match(
    t: Seq<Subdivision>,
    country: Seq<char>,
    administrative: Seq<char>,
    city: Seq<char>,
)
    requires
        !occurs(t, country, city),
        !occurs(t, country, administrative),
    ensures
        resolution(t, country, administrative, city) is None,
{
}

/// Scans the records of one country, from the country's own record at `start`
/// to the last record under it, for the first one called `name`.
fn scan_country(table: &Table, start: usize, country: &str, name: &str) -> (at: Option<usize>)
    requires
        country_at(table@, country@, start as int),
    ensures
        match at {
            Some(i) => first_named(table@, country@, name@) == Some(i as int),
            None => first_named(table@, country@, name@) is None,
        },
{
    let ghost t = table@;
    let records = table.records();
    proof {
        lemma_before_country(t, country@, start as int);
    }
    let mut i: usize = start;
    while i < records.len()
        invariant
            start <= i <= t.len(),
            t == table@,
            t == views(records@),
            ascending(t),
            country_at(t, country@, start as int),
            forall|j: int| 0 <= j < i ==> !named_under(#[trigger] t[j], country@, name@),
        decreases t.len() - i,
    {
        let record = &records[i];
        if !text_under(record.code, country) {
            proof {
                lemma_after_country(t, country@, start as int, i as int);
            }
            return None;
        }
        if same_text(record.name, name) {
            assert(first_named_at(t, country@, name@, i as int));
            return Some(i);
        }
        i += 1;
    }
    None
}

/// Resolves a country code, the name of an administrative region and the
/// name of a city to the most specific record that matches: the first record
/// under the country called `city`, or, where there is none, the first one
/// called `administrative`. Names are compared exactly. `None` where the
/// table does not hold the country, or neither name occurs under it.
pub fn drill_down<'a>(
    table: &'a Table,
    country_code: &str,
    administrative: &str,
    city: &str,
) -> (found: Option<&'a Iso31662>)
    ensures
        match found {
            Some(r) => resolution(table@, country_code@, administrative@, city@) matches Some(i)
                && r@ == table@[i],
            None => resolution(table@, country_code@, administrative@, city@) is None,
        },
        position(table@, country_code@) is None ==> found is None,
        position(table@, country_code@) is Some && occurs(table@, country_code@, city@)
            ==> (found matches Some(r) && named_under(r@, country_code@, city@)),
        position(table@, country_code@) is Some && !occurs(table@, country_code@, city@) && occurs(
            table@,
            country_code@,
            administrative@,
        ) ==> (found matches Some(r) && named_under(r@, country_code@, administrative@)),
        !occurs(table@, country_code@, city@) && !occurs(table@, country_code@, administrative@)
            ==> found is None,
{
    let ghost t = table@;
    proof {
        if position(t, country_code@) is Some {
            if occurs(t, country_code@, city@) {
                let i = choose|i: int|
                    0 <= i < t.len() && named_under(#[trigger] t[i], country_code@, city@);
                lemma_resolution_prefers_city(t, country_code@, administrative@, city@, i);
            } else if occurs(t, country_code@, administrative@) {
                let i = choose|i: int|
                    0 <= i < t.len() && named_under(
                        #[trigger] t[i],
                        country_code@,
                        administrative@,
                    );
                lemma_resolution_falls_back(t, country_code@, administrative@, city@, i);
            }
        }
    }
    let index = match index_of(table, country_code) {
        Some(index) => index,
        None => {
            return None;
        },
    };
    let records = table.records();
    match scan_country(table, index, country_code, city) {
        Some(i) => {
            return Some(&records[i]);
        },
        None => {},
    }
    match scan_country(table, index, country_code, administrative) {
        Some(i) => Some(&records[i]),
        None => None,
    }
}

} // verus!
