use product_space::index::NameIndex;
use product_space::{country_product_cell, country_row, position, Error};

fn names(xs: &[&str]) -> Vec<String> {
    xs.iter().map(|s| s.to_string()).collect()
}

#[test]
fn error_message_and_description() {
    let e = Error::missing_index("zzz", "country");
    assert_eq!(e.message(), "MissingIndex error: zzz not in country");
    assert_eq!(e.description(), "Missing Index");
    match e {
        Error::MissingIndex { member, index } => {
            assert_eq!(member, "zzz");
            assert_eq!(index, "country");
        }
    }
}

#[test]
fn position_finds_first_match() {
    let idx = names(&["a", "b", "a"]);
    assert_eq!(position(&idx, "a"), Some(0));
    assert_eq!(position(&idx, "b"), Some(1));
    assert_eq!(position(&idx, "c"), None);
    assert_eq!(position(&[], "a"), None);
}

#[test]
fn cell_of_country_and_product() {
    // the index of the product space interface example: countries a, b;
    // products 01, 02, 03
    let countries = names(&["a", "b"]);
    let products = names(&["01", "02", "03"]);
    assert_eq!(country_product_cell(&countries, &products, "a", "01").unwrap(), (0, 0));
    assert_eq!(country_product_cell(&countries, &products, "b", "03").unwrap(), (1, 2));
    assert_eq!(country_row(&countries, "b").unwrap(), 1);
}

#[test]
fn missing_country_is_reported_first() {
    let countries = names(&["a", "b"]);
    let products = names(&["01"]);
    match country_product_cell(&countries, &products, "x", "99") {
        Err(Error::MissingIndex { member, index }) => {
            assert_eq!(member, "x");
            assert_eq!(index, "country");
        }
        Ok(_) => panic!("expected an error"),
    }
    match country_product_cell(&countries, &products, "a", "99") {
        Err(Error::MissingIndex { member, index }) => {
            assert_eq!(member, "99");
            assert_eq!(index, "product");
        }
        Ok(_) => panic!("expected an error"),
    }
    match country_row(&countries, "c") {
        Err(e) => assert_eq!(e.message(), "MissingIndex error: c not in country"),
        Ok(_) => panic!("expected an error"),
    }
}

#[test]
fn name_index_insert_is_idempotent() {
    let mut idx = NameIndex::new();
    assert_eq!(idx.len(), 0);
    assert_eq!(idx.insert("nzl"), 0);
    assert_eq!(idx.insert("svk"), 1);
    assert_eq!(idx.insert("nzl"), 0);
    assert_eq!(idx.len(), 2);
    assert_eq!(idx.names(), &names(&["nzl", "svk"]));
    assert_eq!(idx.into_names(), names(&["nzl", "svk"]));
}

#[test]
fn name_index_find_after_insert() {
    let mut idx = NameIndex::new();
    let i = idx.insert("0204");
    let j = idx.insert("8703");
    assert_eq!(idx.find("0204"), Some(i));
    assert_eq!(idx.find("8703"), Some(j));
    assert_eq!(idx.find("2825"), None);
}
