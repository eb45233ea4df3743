use catalog_store::csvfmt::{encode_row, parse_rows};
use catalog_store::dates::Date;
use catalog_store::store::CatalogStore;

fn day(year: u16, month: u8, d: u8) -> Date {
    Date { year, month, day: d }
}

#[test]
fn export_starts_with_bom_and_header() {
    let s = CatalogStore::new();
    let text = s.export_csv();
    assert_eq!(
        text,
        "\u{feff}descrição;marca;fornecedor;preço;última atualização\n"
    );
}

#[test]
fn export_writes_wire_prices() {
    let mut s = CatalogStore::new();
    s.upsert("Cable", "ACME", "Supplier A", 123450, day(2026, 10, 11));
    let text = s.export_csv();
    let mut lines = text.lines();
    lines.next();
    assert_eq!(lines.next(), Some("Cable;ACME;Supplier A;1234,50;2026-10-11"));
}

#[test]
fn import_skips_bad_price_row() {
    let mut s = CatalogStore::new();
    let content = "descrição;marca;fornecedor;preço;última atualização\n\
                   Cabo;X;V;10,50;2024-01-01\n\
                   Ruim;Y;V;abc;2024-01-02\n\
                   Bom;Z;V;3,00;2024-01-03\n";
    let summary = s.import_csv(content);
    assert_eq!(summary.applied, 2);
    assert_eq!(summary.skipped.len(), 1);
    assert_eq!(summary.skipped[0].row, 2);
    assert_eq!(summary.skipped[0].raw_price, "abc");
    let items = s.loaded_items();
    assert_eq!(items.len(), 2);
    assert_eq!(items[0].description, "Bom");
    assert_eq!(items[0].price_cents, 300);
    assert_eq!(items[1].description, "Cabo");
    assert_eq!(items[1].price_cents, 1050);
    assert_eq!(items[1].updated_at, "2024-01-01");
}

#[test]
fn import_trims_fields_and_accepts_point_decimal() {
    let mut s = CatalogStore::new();
    let content = "d;b;v;p;u\n  Cabo ; X ; V ; 10.50 ; 2024-01-01 \n";
    let summary = s.import_csv(content);
    assert_eq!(summary.applied, 1);
    assert!(summary.skipped.is_empty());
    let items = s.loaded_items();
    assert_eq!(items[0].description, "Cabo");
    assert_eq!(items[0].brand, "X");
    assert_eq!(items[0].price_cents, 1050);
    assert_eq!(items[0].updated_at, "2024-01-01");
}

#[test]
fn import_upserts_same_key_rows() {
    let mut s = CatalogStore::new();
    let content = "d;b;v;p;u\nCabo;X;V;1,00;2024-01-01\nCabo;X;V;2,00;2024-02-02\n";
    let summary = s.import_csv(content);
    assert_eq!(summary.applied, 2);
    let items = s.loaded_items();
    assert_eq!(items.len(), 1);
    assert_eq!(items[0].price_cents, 200);
    assert_eq!(items[0].updated_at, "2024-02-02");
}

#[test]
fn import_ignores_blank_lines() {
    let mut s = CatalogStore::new();
    let content = "d;b;v;p;u\n\nCabo;X;V;1,00;2024-01-01\n\n";
    let summary = s.import_csv(content);
    assert_eq!(summary.applied, 1);
    assert_eq!(s.loaded_items().len(), 1);
}

#[test]
fn export_import_round_trip() {
    let mut a = CatalogStore::new();
    a.upsert("Cable; special", "AC\"ME", "Supplier A", 1999, day(2026, 10, 11));
    a.upsert("Lâmpada", "", "Fornecedor Ç", 50, day(2026, 9, 1));
    a.upsert("Plain", "B", "V", u64::MAX, day(2026, 8, 2));
    let text = a.export_csv();

    let mut b = CatalogStore::new();
    let summary = b.import_csv(&text);
    assert_eq!(summary.applied, 3);
    assert!(summary.skipped.is_empty());

    let mut got: Vec<(String, String, String, u64)> = b
        .loaded_items()
        .iter()
        .map(|r| (r.description.clone(), r.brand.clone(), r.vendor.clone(), r.price_cents))
        .collect();
    let mut want: Vec<(String, String, String, u64)> = a
        .loaded_items()
        .iter()
        .map(|r| (r.description.clone(), r.brand.clone(), r.vendor.clone(), r.price_cents))
        .collect();
    got.sort();
    want.sort();
    assert_eq!(got, want);
}

#[test]
fn quoted_fields_survive_encode_and_parse() {
    let fields: Vec<String> = vec![
        "a;b".to_string(),
        "he said \"hi\"".to_string(),
        "line\nbreak".to_string(),
        "plain".to_string(),
    ];
    let mut text = String::new();
    encode_row(&mut text, &fields);
    let rows = parse_rows(&text);
    assert_eq!(rows.len(), 1);
    assert_eq!(rows[0], fields);
}

#[test]
fn parse_rows_splits_fields_and_lines() {
    let rows = parse_rows("a;b;c\nd;e\n");
    assert_eq!(rows.len(), 2);
    assert_eq!(rows[0], vec!["a", "b", "c"]);
    assert_eq!(rows[1], vec!["d", "e"]);
}
