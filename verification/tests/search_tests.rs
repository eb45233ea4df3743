use catalog_store::dates::Date;
use catalog_store::store::CatalogStore;

fn day(year: u16, month: u8, d: u8) -> Date {
    Date { year, month, day: d }
}

fn sample() -> CatalogStore {
    let mut s = CatalogStore::new();
    s.upsert("Cable", "", "ACME Corp", 100, day(2026, 10, 11));
    s.upsert("Lamp", "", "Other", 200, day(2026, 10, 11));
    s
}

#[test]
fn search_is_case_insensitive_on_vendor() {
    let mut s = sample();
    s.search("acme");
    let v = s.visible_items();
    assert_eq!(v.len(), 1);
    assert_eq!(v[0].vendor, "ACME Corp");
}

#[test]
fn search_query_casing_does_not_matter() {
    let mut s = sample();
    s.search("AcMe");
    assert_eq!(s.visible_items().len(), 1);
}

#[test]
fn search_matches_description_and_brand() {
    let mut s = CatalogStore::new();
    s.upsert("Copper Cable", "BrandX", "V1", 100, day(2026, 10, 11));
    s.upsert("Lamp", "Luma", "V2", 200, day(2026, 10, 11));
    s.search("copper");
    assert_eq!(s.visible_items().len(), 1);
    s.search("luma");
    assert_eq!(s.visible_items().len(), 1);
    assert_eq!(s.visible_items()[0].brand, "Luma");
}

#[test]
fn empty_query_shows_whole_loaded_set() {
    let mut s = sample();
    s.search("acme");
    assert_eq!(s.visible_items().len(), 1);
    s.search("");
    assert_eq!(s.visible_items().len(), 2);
}

#[test]
fn search_keeps_loaded_order() {
    let mut s = CatalogStore::new();
    s.upsert("A cable", "", "V", 1, day(2026, 10, 11));
    s.upsert("B cable", "", "V", 2, day(2026, 10, 11));
    s.upsert("C lamp", "", "V", 3, day(2026, 10, 11));
    s.search("cable");
    let v = s.visible_items();
    assert_eq!(v.len(), 2);
    assert_eq!(v[0].description, "B cable");
    assert_eq!(v[1].description, "A cable");
}

#[test]
fn search_with_no_match_is_empty() {
    let mut s = sample();
    s.search("zzz");
    assert_eq!(s.visible_items().len(), 0);
}

#[test]
fn repeating_the_query_changes_nothing() {
    let mut s = sample();
    s.search("acme");
    let first: Vec<u64> = s.visible_items().iter().map(|r| r.id).collect();
    s.search("acme");
    let second: Vec<u64> = s.visible_items().iter().map(|r| r.id).collect();
    assert_eq!(first, second);
}
