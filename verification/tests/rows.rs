use product_space::layout::index_cells;
use product_space::rows::{parse_row, parse_u32, ExportRow, RowError};

#[test]
fn parse_u32_reads_like_from_str() {
    let cases = ["2017", "+7", "0", "007", "4294967295", "4294967296", "", "+", "-1", " 1", "1 ", "12a", "99999999999999999999", "١"];
    for c in cases.iter() {
        assert_eq!(parse_u32(c), c.parse::<u32>().ok(), "case {:?}", c);
    }
    assert_eq!(parse_u32("2017"), Some(2017));
    assert_eq!(parse_u32("4294967295"), Some(u32::MAX));
    assert_eq!(parse_u32("4294967296"), None);
}

fn fields(r: &ExportRow) -> (&str, &str, &str) {
    (r.country.as_str(), r.product.as_str(), r.export_val.as_str())
}

#[test]
fn row_of_the_year_is_kept() {
    let r = parse_row("2017\tago\t0106\t2683401.0\t100.0\t1.09\t0.2", 2017).unwrap().unwrap();
    assert_eq!(fields(&r), ("ago", "0106", "2683401.0"));
}

#[test]
fn rows_of_other_years_and_null_exports_are_skipped() {
    assert!(parse_row("2016\tago\t0106\t2683401.0", 2017).unwrap().is_none());
    assert!(parse_row("2017\tbdi\t1513\tNULL\t5.0", 2017).unwrap().is_none());
    // a row of another year is skipped before its other fields are looked at
    assert!(parse_row("2016", 2017).unwrap().is_none());
    // NULL only as the whole field
    let r = parse_row("2017\tbdi\t1513\tNULLX", 2017).unwrap().unwrap();
    assert_eq!(r.export_val, "NULLX");
}

#[test]
fn row_errors_name_the_first_missing_field() {
    assert_eq!(parse_row("year\torigin\ths92\texport_val", 2017).err(), Some(RowError::InvalidYear));
    assert_eq!(parse_row("", 2017).err(), Some(RowError::InvalidYear));
    assert_eq!(parse_row("2017", 2017).err(), Some(RowError::MissingCountry));
    assert_eq!(parse_row("2017\tago", 2017).err(), Some(RowError::MissingProduct));
    assert_eq!(parse_row("2017\tago\t0106", 2017).err(), Some(RowError::MissingExportValue));
}

#[test]
fn empty_fields_are_fields() {
    let r = parse_row("2017\t\t\t5", 2017).unwrap().unwrap();
    assert_eq!(fields(&r), ("", "", "5"));
}

fn row(c: &str, p: &str, v: &str) -> ExportRow {
    ExportRow { country: c.to_string(), product: p.to_string(), export_val: v.to_string() }
}

#[test]
fn layout_indexes_each_name_once() {
    let rows = vec![
        row("nzl", "0204", "1"),
        row("svk", "8703", "2"),
        row("nzl", "8703", "3"),
        row("bra", "0204", "4"),
        row("nzl", "0204", "5"),
    ];
    let layout = index_cells(&rows);
    assert_eq!(layout.countries, vec!["nzl", "svk", "bra"]);
    assert_eq!(layout.products, vec!["0204", "8703"]);
    assert_eq!(layout.cells, vec![(0, 0), (1, 1), (0, 1), (2, 0), (0, 0)]);
}

#[test]
fn layout_cells_read_back_through_lookups() {
    let rows = vec![row("a", "02", "1"), row("b", "01", "2"), row("a", "03", "3")];
    let layout = index_cells(&rows);
    for (k, r) in rows.iter().enumerate() {
        let cell = product_space::country_product_cell(&layout.countries, &layout.products, &r.country, &r.product).unwrap();
        assert_eq!(cell, layout.cells[k]);
    }
}

#[test]
fn layout_of_no_rows_is_empty() {
    let layout = index_cells(&vec![]);
    assert!(layout.countries.is_empty());
    assert!(layout.products.is_empty());
    assert!(layout.cells.is_empty());
}
