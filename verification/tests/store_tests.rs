use catalog_store::dates::Date;
use catalog_store::store::{CatalogStore, Outcome};

fn day(year: u16, month: u8, d: u8) -> Date {
    Date { year, month, day: d }
}

#[test]
fn upsert_then_load_yields_one_record() {
    let mut s = CatalogStore::new();
    let r = s.upsert("Cable 2.5mm", "ACME", "Supplier A", 1999, day(2026, 10, 11));
    assert_eq!(r, Outcome::Saved);
    s.load_all();
    let items = s.loaded_items();
    assert_eq!(items.len(), 1);
    assert_eq!(items[0].description, "Cable 2.5mm");
    assert_eq!(items[0].brand, "ACME");
    assert_eq!(items[0].vendor, "Supplier A");
    assert_eq!(items[0].price_cents, 1999);
    assert_eq!(items[0].updated_at, "2026-10-11");
}

#[test]
fn second_upsert_overwrites_in_place() {
    let mut s = CatalogStore::new();
    s.upsert("Cable", "ACME", "Supplier A", 1999, day(2026, 10, 11));
    let id0 = s.loaded_items()[0].id;
    let r = s.upsert("Cable", "ACME", "Supplier A", 2500, day(2026, 10, 12));
    assert_eq!(r, Outcome::Saved);
    let items = s.loaded_items();
    assert_eq!(items.len(), 1);
    assert_eq!(items[0].id, id0);
    assert_eq!(items[0].price_cents, 2500);
    assert_eq!(items[0].updated_at, "2026-10-12");
}

#[test]
fn upsert_orders_newest_first() {
    let mut s = CatalogStore::new();
    s.upsert("First", "", "V", 100, day(2026, 1, 1));
    s.upsert("Second", "", "V", 200, day(2026, 1, 2));
    s.upsert("Third", "", "V", 300, day(2026, 1, 3));
    let items = s.loaded_items();
    assert_eq!(items.len(), 3);
    assert_eq!(items[0].description, "Third");
    assert_eq!(items[1].description, "Second");
    assert_eq!(items[2].description, "First");
    assert!(items[0].id > items[1].id && items[1].id > items[2].id);
}

#[test]
fn upsert_rejects_empty_description() {
    let mut s = CatalogStore::new();
    let r = s.upsert("", "ACME", "Supplier A", 100, day(2026, 10, 11));
    assert_eq!(r, Outcome::ValidationError);
    assert_eq!(s.loaded_items().len(), 0);
}

#[test]
fn upsert_rejects_empty_vendor() {
    let mut s = CatalogStore::new();
    let r = s.upsert("Cable", "ACME", "", 100, day(2026, 10, 11));
    assert_eq!(r, Outcome::ValidationError);
}

#[test]
fn upsert_allows_empty_brand() {
    let mut s = CatalogStore::new();
    let r = s.upsert("Cable", "", "Supplier A", 100, day(2026, 10, 11));
    assert_eq!(r, Outcome::Saved);
    assert_eq!(s.loaded_items().len(), 1);
}

#[test]
fn update_without_changes_is_no_change() {
    let mut s = CatalogStore::new();
    s.upsert("Cable", "ACME", "Supplier A", 1999, day(2026, 10, 11));
    let id = s.loaded_items()[0].id;
    let r = s.update(id, "Cable", "ACME", "Supplier A", 1999, day(2026, 12, 31));
    assert_eq!(r, Outcome::NoChange);
    // the date is untouched by a no-op update
    assert_eq!(s.loaded_items()[0].updated_at, "2026-10-11");
}

#[test]
fn update_overwrites_fields_and_date() {
    let mut s = CatalogStore::new();
    s.upsert("Cable", "ACME", "Supplier A", 1999, day(2026, 10, 11));
    let id = s.loaded_items()[0].id;
    let r = s.update(id, "Cable 4mm", "ACME", "Supplier B", 2099, day(2026, 11, 1));
    assert_eq!(r, Outcome::Saved);
    let items = s.loaded_items();
    assert_eq!(items.len(), 1);
    assert_eq!(items[0].id, id);
    assert_eq!(items[0].description, "Cable 4mm");
    assert_eq!(items[0].vendor, "Supplier B");
    assert_eq!(items[0].price_cents, 2099);
    assert_eq!(items[0].updated_at, "2026-11-01");
}

#[test]
fn update_unknown_id_is_not_found() {
    let mut s = CatalogStore::new();
    s.upsert("Cable", "ACME", "Supplier A", 1999, day(2026, 10, 11));
    let r = s.update(9999, "Cable", "ACME", "Supplier A", 1, day(2026, 10, 11));
    assert_eq!(r, Outcome::NotFound);
}

#[test]
fn update_into_existing_key_is_storage_error() {
    let mut s = CatalogStore::new();
    s.upsert("A", "", "V", 100, day(2026, 10, 11));
    s.upsert("B", "", "V", 200, day(2026, 10, 11));
    let id_b = s.loaded_items()[0].id;
    let r = s.update(id_b, "A", "", "V", 300, day(2026, 10, 12));
    assert_eq!(r, Outcome::StorageError);
    // nothing changed
    assert_eq!(s.loaded_items()[0].description, "B");
    assert_eq!(s.loaded_items()[0].price_cents, 200);
}

#[test]
fn delete_removes_record() {
    let mut s = CatalogStore::new();
    s.upsert("A", "", "V", 100, day(2026, 10, 11));
    s.upsert("B", "", "V", 200, day(2026, 10, 11));
    let id_a = s.loaded_items()[1].id;
    let r = s.delete(id_a);
    assert_eq!(r, Outcome::Saved);
    let items = s.loaded_items();
    assert_eq!(items.len(), 1);
    assert_eq!(items[0].description, "B");
}

#[test]
fn delete_unknown_id_is_not_found_and_changes_nothing() {
    let mut s = CatalogStore::new();
    s.upsert("A", "", "V", 100, day(2026, 10, 11));
    let before: Vec<String> = s.loaded_items().iter().map(|r| r.description.clone()).collect();
    let r = s.delete(424242);
    assert_eq!(r, Outcome::NotFound);
    let after: Vec<String> = s.loaded_items().iter().map(|r| r.description.clone()).collect();
    assert_eq!(before, after);
}

#[test]
fn load_outdated_filters_by_cutoff() {
    let mut s = CatalogStore::new();
    // dated today: excluded
    s.upsert("Fresh", "", "V", 100, day(2026, 10, 11));
    // dated 40 days earlier: included
    s.upsert("Stale", "", "V", 200, day(2026, 9, 1));
    s.load_outdated(day(2026, 10, 11));
    let items = s.loaded_items();
    assert_eq!(items.len(), 1);
    assert_eq!(items[0].description, "Stale");
    // loading everything again restores both
    s.load_all();
    assert_eq!(s.loaded_items().len(), 2);
}

#[test]
fn outcome_messages() {
    assert_eq!(Outcome::Saved.message(), "saved");
    assert_eq!(Outcome::NotFound.message(), "no matching record");
}
