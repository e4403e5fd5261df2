use iso3166_2::{all_parents, drill_down, find, index_of, Iso31662, Table};

fn entry(
    code: &'static str,
    name: &'static str,
    division: &'static str,
    parent: Option<&'static str>,
) -> Iso31662 {
    Iso31662 { code, name, division, parent, lat: None, lng: None }
}

fn placed(
    code: &'static str,
    name: &'static str,
    division: &'static str,
    parent: Option<&'static str>,
    lat: f32,
    lng: f32,
) -> Iso31662 {
    Iso31662 { code, name, division, parent, lat: Some(lat.to_bits()), lng: Some(lng.to_bits()) }
}

fn entries() -> Vec<Iso31662> {
    vec![
        placed("CA", "Canada", "country", None, 56.130367, -106.346771),
        entry("CA-AB", "Alberta", "province", Some("CA")),
        entry("CA-ON", "Ontario", "province", Some("CA")),
        placed("CA-QC", "Quebec", "province", Some("CA"), 52.939915, -73.549133),
        entry("DE", "Germany", "country", None),
        entry("DE-BE", "Berlin", "state", Some("DE")),
        entry("DE-BY", "Bayern", "state", Some("DE")),
        entry("ES", "Spain", "country", None),
        entry("ES-B", "Barcelona", "province", Some("ES-CT")),
        entry("ES-CT", "Catalunya", "autonomous community", Some("ES")),
        placed("ES-M", "Madrid", "province", Some("ES-MD"), 40.416775, -3.70379),
        entry("ES-MD", "Comunidad de Madrid", "autonomous community", Some("ES")),
        entry("GB", "United Kingdom", "country", None),
        entry("GB-ENG", "England", "country", Some("GB")),
        entry("GB-SCT", "Scotland", "country", Some("GB")),
        entry("IE", "Ireland", "country", None),
        entry("IE-D", "Dublin", "county", Some("IE-L")),
        entry("IE-L", "Leinster", "province", Some("IE")),
    ]
}

fn reference() -> Table {
    Table::new(entries()).unwrap()
}

fn codes(chain: &[&Iso31662]) -> Vec<&'static str> {
    chain.iter().map(|c| c.code).collect()
}

#[test]
fn find_code() {
    let table = reference();
    let all = table.records();
    let index = all.binary_search_by_key(&"ES-MD", |c| &c.code).unwrap();
    assert_eq!(all[index].code, "ES-MD");
    assert_eq!(find(&table, "GB-SCT").unwrap().code, "GB-SCT");
}

#[test]
fn augment() {
    let table = reference();
    let all = table.records();
    let index = all.binary_search_by_key(&"ES", |c| &c.code).unwrap();
    let madrid = all[index..].iter().find(|c| c.name == "Madrid").unwrap();
    assert_eq!(madrid.code, "ES-M");
}

#[test]
fn parents() {
    let table = reference();
    let parents = all_parents(&table, "ES-M");
    assert_eq!(
        parents.iter().map(|c| c.code).collect::<Vec<_>>(),
        vec!["ES-M", "ES-MD", "ES"]
    );
}

#[test]
fn dilldown() {
    let table = reference();
    assert_eq!(
        drill_down(&table, "ES", "Comunidad de Madrid", "Madrid")
            .unwrap()
            .code,
        "ES-M"
    );
    assert_eq!(
        drill_down(&table, "DE", "Bayern", "Middle Franconia").unwrap().code,
        "DE-BY"
    );
    assert_eq!(
        drill_down(&table, "IE", "Leinster", "Dublin 2").unwrap().code,
        "IE-L"
    );
    assert_eq!(
        drill_down(&table, "CA", "Quebec", "Montreal").unwrap().code,
        "CA-QC"
    );
}

#[test]
fn table_keeps_the_records_it_was_given() {
    let table = reference();
    let given = entries();
    assert_eq!(table.len(), given.len());
    assert_eq!(table.records().len(), given.len());
    for (i, record) in given.iter().enumerate() {
        let held = &table.records()[i];
        assert_eq!(held.code, record.code);
        assert_eq!(held.name, record.name);
        assert_eq!(held.division, record.division);
        assert_eq!(held.parent, record.parent);
        assert_eq!(held.lat, record.lat);
        assert_eq!(held.lng, record.lng);
    }
}

#[test]
fn table_carries_coordinates_bit_for_bit() {
    let table = reference();
    let madrid = find(&table, "ES-M").unwrap();
    assert_eq!(f32::from_bits(madrid.lat.unwrap()), 40.416775f32);
    assert_eq!(f32::from_bits(madrid.lng.unwrap()), -3.70379f32);
    assert_eq!(find(&table, "ES").unwrap().lat, None);
}

#[test]
fn table_accepts_empty_and_single() {
    let empty = Table::new(Vec::new()).unwrap();
    assert_eq!(empty.len(), 0);
    assert!(find(&empty, "ES").is_none());
    assert!(all_parents(&empty, "ES").is_empty());
    assert!(drill_down(&empty, "ES", "Madrid", "Madrid").is_none());
    let single = Table::new(vec![entry("ES", "Spain", "country", None)]).unwrap();
    assert_eq!(single.len(), 1);
    assert_eq!(find(&single, "ES").unwrap().name, "Spain");
}

#[test]
fn table_refuses_codes_out_of_order() {
    let mut swapped = entries();
    swapped.swap(3, 4);
    assert!(Table::new(swapped).is_none());
    let mut tail = entries();
    let last = tail.len() - 1;
    tail.swap(last - 1, last);
    assert!(Table::new(tail).is_none());
    assert!(Table::new(vec![
        entry("ES-MD", "Comunidad de Madrid", "autonomous community", Some("ES")),
        entry("ES-M", "Madrid", "province", Some("ES-MD")),
    ])
    .is_none());
}

#[test]
fn table_refuses_a_code_held_twice() {
    assert!(Table::new(vec![
        entry("ES", "Spain", "country", None),
        entry("ES", "España", "country", None),
    ])
    .is_none());
    let mut doubled = entries();
    doubled.insert(6, entry("DE-BE", "Berlin", "state", Some("DE")));
    assert!(Table::new(doubled).is_none());
}

#[test]
fn table_orders_codes_by_their_bytes() {
    // '-' (0x2D) sorts before digits and letters; upper case before lower.
    assert!(Table::new(vec![
        entry("A-1", "", "", None),
        entry("A1", "", "", None),
        entry("AB", "", "", None),
        entry("Ab", "", "", None),
        entry("a", "", "", None),
        entry("é", "", "", None),
        entry("日本", "", "", None),
    ])
    .is_some());
    assert!(Table::new(vec![entry("a", "", "", None), entry("B", "", "", None)]).is_none());
    assert!(Table::new(vec![entry("A1", "", "", None), entry("A-1", "", "", None)]).is_none());
}

#[test]
fn find_returns_every_code_of_the_table() {
    let table = reference();
    for (i, record) in entries().iter().enumerate() {
        let found = find(&table, record.code).unwrap();
        assert_eq!(found.code, record.code);
        assert_eq!(found.name, record.name);
        assert_eq!(index_of(&table, record.code), Some(i));
    }
}

#[test]
fn find_misses_codes_the_table_lacks() {
    let table = reference();
    let absent =
        ["", "A", "CA-", "CA-QB", "ES-MA", "ES-MDX", "FR", "GB-SC", "IE-M", "ZZ", "es", "Es"];
    for code in absent {
        assert!(find(&table, code).is_none(), "{:?}", code);
        assert_eq!(index_of(&table, code), None, "{:?}", code);
    }
}

#[test]
fn find_scotland() {
    let table = reference();
    let found = find(&table, "GB-SCT").unwrap();
    assert_eq!(found.code, "GB-SCT");
    assert_eq!(found.name, "Scotland");
    assert_eq!(found.parent, Some("GB"));
}

#[test]
fn parents_of_a_country_is_the_country_alone() {
    let table = reference();
    assert_eq!(codes(&all_parents(&table, "ES")), vec!["ES"]);
    assert_eq!(codes(&all_parents(&table, "CA")), vec!["CA"]);
}

#[test]
fn parents_run_from_leaf_to_root() {
    let table = reference();
    assert_eq!(codes(&all_parents(&table, "ES-B")), vec!["ES-B", "ES-CT", "ES"]);
    assert_eq!(codes(&all_parents(&table, "IE-D")), vec!["IE-D", "IE-L", "IE"]);
    assert_eq!(codes(&all_parents(&table, "GB-SCT")), vec!["GB-SCT", "GB"]);
}

#[test]
fn parents_chain_is_linked_and_ends_at_a_root() {
    let table = reference();
    for record in entries() {
        let chain = all_parents(&table, record.code);
        assert!(!chain.is_empty());
        assert_eq!(chain[0].code, record.code);
        for pair in chain.windows(2) {
            assert_eq!(pair[0].parent, Some(pair[1].code));
        }
        assert_eq!(chain[chain.len() - 1].parent, None);
    }
}

#[test]
fn parents_of_an_absent_code_is_empty() {
    let table = reference();
    assert!(all_parents(&table, "ZZ").is_empty());
    assert!(all_parents(&table, "").is_empty());
    assert!(all_parents(&table, "ES-").is_empty());
}

#[test]
fn parents_stop_at_a_parent_the_table_lacks() {
    let table = Table::new(vec![
        entry("FR-75", "Paris", "department", Some("FR-IDF")),
        entry("FR-IDF", "Île-de-France", "region", Some("FR")),
    ])
    .unwrap();
    assert_eq!(codes(&all_parents(&table, "FR-75")), vec!["FR-75", "FR-IDF"]);
    assert_eq!(codes(&all_parents(&table, "FR-IDF")), vec!["FR-IDF"]);
    assert!(all_parents(&table, "FR").is_empty());
}

#[test]
fn parents_on_a_circle_are_cut_at_the_table_length() {
    let table = Table::new(vec![
        entry("XA", "A", "", Some("XB")),
        entry("XB", "B", "", Some("XC")),
        entry("XC", "C", "", Some("XA")),
        entry("XD", "D", "", Some("XD")),
    ])
    .unwrap();
    assert_eq!(codes(&all_parents(&table, "XB")), vec!["XB", "XC", "XA", "XB"]);
    assert_eq!(codes(&all_parents(&table, "XD")), vec!["XD", "XD", "XD", "XD"]);
}

#[test]
fn drill_down_prefers_the_city() {
    let table = reference();
    assert_eq!(drill_down(&table, "ES", "Comunidad de Madrid", "Madrid").unwrap().code, "ES-M");
    // The city wins whether the region is valid or not, and wherever it sorts.
    assert_eq!(drill_down(&table, "ES", "Nowhere", "Madrid").unwrap().code, "ES-M");
    assert_eq!(drill_down(&table, "ES", "Barcelona", "Catalunya").unwrap().code, "ES-CT");
    assert_eq!(drill_down(&table, "ES", "Catalunya", "Barcelona").unwrap().code, "ES-B");
    assert_eq!(drill_down(&table, "IE", "Leinster", "Dublin").unwrap().code, "IE-D");
}

#[test]
fn drill_down_falls_back_to_the_region() {
    let table = reference();
    assert_eq!(drill_down(&table, "DE", "Bayern", "Middle Franconia").unwrap().code, "DE-BY");
    assert_eq!(drill_down(&table, "CA", "Quebec", "Montreal").unwrap().code, "CA-QC");
    assert_eq!(drill_down(&table, "ES", "Comunidad de Madrid", "Getafe").unwrap().code, "ES-MD");
}

#[test]
fn drill_down_unknown_country() {
    let table = reference();
    assert!(drill_down(&table, "ZZ", "Nowhere", "Nowhere City").is_none());
    assert!(drill_down(&table, "ZZ", "Comunidad de Madrid", "Madrid").is_none());
    assert!(drill_down(&table, "E", "Comunidad de Madrid", "Madrid").is_none());
    assert!(drill_down(&table, "", "Comunidad de Madrid", "Madrid").is_none());
    assert!(drill_down(&table, "es", "Comunidad de Madrid", "Madrid").is_none());
}

#[test]
fn drill_down_without_a_match_is_none() {
    let table = reference();
    assert!(drill_down(&table, "ES", "Nowhere", "Nowhere City").is_none());
    assert!(drill_down(&table, "GB", "", "").is_none());
}

#[test]
fn drill_down_compares_names_exactly() {
    let table = reference();
    assert!(drill_down(&table, "ES", "comunidad de madrid", "madrid").is_none());
    assert!(drill_down(&table, "ES", "Comunidad de Madrid ", "Madri").is_none());
    assert!(drill_down(&table, "ES", "Comunidad", "Madrid ").is_none());
    assert_eq!(drill_down(&table, "ES", "Comunidad de Madrid", "MADRID").unwrap().code, "ES-MD");
}

#[test]
fn drill_down_stays_inside_the_country() {
    let table = reference();
    // Both names exist, but under other countries.
    assert!(drill_down(&table, "DE", "Quebec", "Madrid").is_none());
    assert_eq!(drill_down(&table, "DE", "Bayern", "Madrid").unwrap().code, "DE-BY");
    // The last country's run ends with the table.
    assert_eq!(drill_down(&table, "IE", "Leinster", "Scotland").unwrap().code, "IE-L");
    // The first country has nothing ahead of it.
    assert_eq!(drill_down(&table, "CA", "Alberta", "Bayern").unwrap().code, "CA-AB");
}

#[test]
fn drill_down_can_name_the_country_itself() {
    let table = reference();
    assert_eq!(drill_down(&table, "ES", "Nowhere", "Spain").unwrap().code, "ES");
    assert_eq!(drill_down(&table, "GB", "United Kingdom", "London").unwrap().code, "GB");
}

#[test]
fn drill_down_from_a_subdivision_code() {
    let table = reference();
    // Any code of the table can scope the search: its run is what begins with it.
    assert_eq!(drill_down(&table, "ES-M", "Comunidad de Madrid", "Madrid").unwrap().code, "ES-M");
    assert_eq!(
        drill_down(&table, "ES-M", "Comunidad de Madrid", "Getafe").unwrap().code,
        "ES-MD"
    );
    assert!(drill_down(&table, "ES-MD", "Nowhere", "Madrid").is_none());
}

#[test]
fn drill_down_takes_the_first_of_equal_names() {
    let table = Table::new(vec![
        entry("US", "United States", "country", None),
        entry("US-GA", "Georgia", "state", Some("US")),
        entry("US-GA-1", "Springfield", "city", Some("US-GA")),
        entry("US-IL", "Illinois", "state", Some("US")),
        entry("US-IL-1", "Springfield", "city", Some("US-IL")),
        entry("UY", "Uruguay", "country", None),
    ])
    .unwrap();
    assert_eq!(drill_down(&table, "US", "Illinois", "Springfield").unwrap().code, "US-GA-1");
    assert_eq!(drill_down(&table, "US-IL", "Illinois", "Springfield").unwrap().code, "US-IL-1");
    assert!(drill_down(&table, "UY", "Illinois", "Springfield").is_none());
}

fn window_scan<'a>(
    all: &'a [Iso31662],
    country_code: &str,
    administrative: &str,
    city: &str,
) -> Option<&'a Iso31662> {
    let index = all.iter().position(|c| c.code == country_code)?;
    let by_name = |name: &str| {
        all[index..]
            .iter()
            .take_while(|c| c.code.starts_with(country_code))
            .find(|c| c.name == name)
    };
    by_name(city).or_else(|| by_name(administrative))
}

#[test]
fn find_agrees_with_a_plain_scan() {
    let table = reference();
    let all = table.records();
    let probes = [
        "", "C", "CA", "CA-", "CA-AB", "CA-QC", "CB", "DE", "DE-BY", "DE-BZ", "ES", "ES-B", "ES-M",
        "ES-MD", "ES-N", "GB", "GB-SCT", "GB-WLS", "IE", "IE-D", "IE-L", "IE-M", "IF", "ZZ",
    ];
    for code in probes {
        let expected = all.iter().find(|c| c.code == code).map(|c| c.code);
        assert_eq!(find(&table, code).map(|c| c.code), expected, "{:?}", code);
        let index = all.iter().position(|c| c.code == code);
        assert_eq!(index_of(&table, code), index, "{:?}", code);
    }
}

#[test]
fn drill_down_agrees_with_a_plain_scan() {
    let table = reference();
    let all = table.records();
    let countries = ["", "CA", "DE", "ES", "ES-M", "GB", "IE", "IE-L", "ZZ"];
    let names = [
        "", "Alberta", "Barcelona", "Bayern", "Berlin", "Canada", "Catalunya",
        "Comunidad de Madrid", "Dublin", "England", "Leinster", "Madrid", "Nowhere", "Quebec",
        "Scotland", "Spain",
    ];
    for country in countries {
        for administrative in names {
            for city in names {
                let expected = window_scan(all, country, administrative, city).map(|c| c.code);
                let found = drill_down(&table, country, administrative, city).map(|c| c.code);
                assert_eq!(found, expected, "{:?} {:?} {:?}", country, administrative, city);
            }
        }
    }
}
