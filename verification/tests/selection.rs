use std::collections::HashMap;

use product_space::{variance_divisor, ProductSpace, YearSelection};

fn space() -> ProductSpace<Vec<f64>> {
    let mut mcps = HashMap::new();
    mcps.insert(2015, vec![1.0]);
    mcps.insert(2016, vec![2.0]);
    mcps.insert(2017, vec![3.0]);
    ProductSpace::new(vec!["a".to_string(), "b".to_string()], vec!["01".to_string()], mcps)
}

fn values(sel: &YearSelection<Vec<f64>>) -> (Vec<f64>, usize) {
    match sel {
        YearSelection::Single(m) => (m.to_vec(), 1),
        YearSelection::Several { matrices, divisor } => (matrices.iter().map(|m| m[0]).collect(), *divisor),
    }
}

#[test]
fn no_years_select_nothing() {
    assert!(space().select(&[]).is_none());
}

#[test]
fn one_year_selects_its_matrix() {
    let ps = space();
    match ps.select(&[2016]) {
        Some(YearSelection::Single(m)) => assert_eq!(m, &vec![2.0]),
        _ => panic!("expected a single matrix"),
    }
    assert!(ps.select(&[2020]).is_none());
}

#[test]
fn several_years_skip_missing_ones() {
    let ps = space();
    let sel = ps.select(&[2017, 2020, 2015]).unwrap();
    assert_eq!(values(&sel), (vec![3.0, 1.0], 2));
    // the average of the years present
    let (ms, d) = values(&sel);
    assert_eq!(ms.iter().sum::<f64>() / d as f64, 2.0);
    // several years, none present: a selection of no matrices
    let sel = ps.select(&[2020, 2021]).unwrap();
    assert_eq!(values(&sel), (vec![], 0));
    let sel = ps.select(&[2016, 2016]).unwrap();
    assert_eq!(values(&sel), (vec![2.0, 2.0], 2));
}

#[test]
fn all_years_present_divide_by_their_count() {
    let ps = space();
    let sel = ps.select(&[2015, 2016, 2017]).unwrap();
    let (ms, d) = values(&sel);
    assert_eq!(ms.len(), d);
    // the average of the yearly values
    assert_eq!(ms.iter().sum::<f64>() / d as f64, 2.0);
}

#[test]
fn product_space_keeps_its_indexes() {
    let ps = space();
    assert_eq!(ps.country_index(), &vec!["a".to_string(), "b".to_string()]);
    assert_eq!(ps.product_index(), &vec!["01".to_string()]);
    assert_eq!(ps.mcp(2017), Some(&vec![3.0]));
    assert_eq!(ps.mcp(2018), None);
}

#[test]
fn variance_divisor_defaults_to_one_degree_of_freedom() {
    // the standard deviations of the complexity calculation: pandas' default
    assert_eq!(variance_divisor(4, None), 3);
    // numpy's
    assert_eq!(variance_divisor(3, Some(0)), 3);
    assert_eq!(variance_divisor(4, Some(4)), 0);
}

