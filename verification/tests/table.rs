use product_space::country_product_cell;
use product_space::layout::{cell_values, index_cells};
use product_space::rows::RowError;
use product_space::table::ExportTable;

fn read(lines: &[&str], year: u32) -> Result<Vec<(String, String, String)>, RowError> {
    let mut t = ExportTable::new(year);
    for l in lines {
        t.push_line(l)?;
    }
    Ok(t.into_rows().into_iter().map(|r| (r.country, r.product, r.export_val)).collect())
}

fn triple(c: &str, p: &str, v: &str) -> (String, String, String) {
    (c.to_string(), p.to_string(), v.to_string())
}

#[test]
fn header_is_not_read_as_data() {
    let rows = read(&["2017\tago\t0106\t1.0", "2017\tbdi\t1513\t2.0"], 2017).unwrap();
    assert_eq!(rows, vec![triple("bdi", "1513", "2.0")]);
    // a header that is no data row is no error
    let rows = read(&["year\torigin\ths92\texport_val"], 2017).unwrap();
    assert!(rows.is_empty());
    assert!(read(&[], 2017).unwrap().is_empty());
}

#[test]
fn push_line_tells_whether_a_row_was_kept() {
    let mut t = ExportTable::new(2017);
    assert_eq!(t.push_line("year\torigin\ths92\texport_val"), Ok(false));
    assert_eq!(t.push_line("2017\tago\t0106\t1.0"), Ok(true));
    assert_eq!(t.push_line("2016\tago\t0106\t1.0"), Ok(false));
    assert_eq!(t.push_line("2017\tago\t0106\tNULL"), Ok(false));
    assert_eq!(t.push_line("x\tago"), Err(RowError::InvalidYear));
    // a refused line leaves the table as it was
    assert_eq!(t.rows().len(), 1);
    assert_eq!(t.push_line("2017\tsvk\t8703\t4.4"), Ok(true));
    assert_eq!(t.rows().len(), 2);
}

#[test]
fn lines_of_other_years_have_no_effect() {
    let base = ["h", "2017\tnzl\t0204\t149.9", "2017\tsvk\t8703\t4.4"];
    let with_others = ["h", "2016\tnzl\t0204\t1.0", "2017\tnzl\t0204\t149.9", "2015\tzzz", "2017\tsvk\t8703\t4.4", "2018"];
    assert_eq!(read(&base, 2017), read(&with_others, 2017));
}

#[test]
fn first_bad_line_gives_the_error() {
    assert_eq!(read(&["h", "2017\tago", "2017"], 2017), Err(RowError::MissingProduct));
    assert_eq!(read(&["h", "2016", "2017"], 2017), Err(RowError::MissingCountry));
}

#[test]
fn the_last_row_of_a_cell_is_read_back() {
    let mut t = ExportTable::new(2017);
    for l in ["h", "2017\ta\t01\t1.5", "2017\tb\t02\t2.5", "2017\ta\t01\t3.5", "2017\ta\t02\t4.5"].iter() {
        t.push_line(l).unwrap();
    }
    let rows = t.into_rows();
    let vals: Vec<f64> = rows.iter().map(|r| r.export_val.parse().unwrap()).collect();
    let layout = index_cells(&rows);
    let m = cell_values(&layout, &vals, 0.0);
    assert_eq!(m, vec![vec![3.5, 4.5], vec![0.0, 2.5]]);
    let (i, j) = country_product_cell(&layout.countries, &layout.products, "a", "01").unwrap();
    assert_eq!(m[i][j], 3.5);
    let (i, j) = country_product_cell(&layout.countries, &layout.products, "b", "01").unwrap();
    assert_eq!(m[i][j], 0.0);
}
