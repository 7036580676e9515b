use vstd::prelude::*;

use crate::index::{lemma_distinct_first_position, names_of, scan_result, NameIndex};
use crate::rows::ExportRow;

verus! {

/// Where the rows of an export table go in a country-by-product matrix: the
/// row index (countries), the column index (products), and for each data
/// row the cell that its value fills.
pub struct CellLayout {
    pub countries: Vec<String>,
    pub products: Vec<String>,
    pub cells: Vec<(usize, usize)>,
}

/// The countries of the rows, in row order.
pub open spec fn row_countries(rows: Seq<ExportRow>) -> Seq<Seq<char>> {
    rows.map_values(|r: ExportRow| r.country@)
}

/// The products of the rows, in row order.
pub open spec fn row_products(rows: Seq<ExportRow>) -> Seq<Seq<char>> {
    rows.map_values(|r: ExportRow| r.product@)
}

/// The distinct names of `wanted`, in the order in which they first appear.
pub open spec fn first_appearances(wanted: Seq<Seq<char>>) -> Seq<Seq<char>>
    decreases wanted.len(),
{
    if wanted.len() == 0 {
        Seq::empty()
    } else {
        let r = first_appearances(wanted.drop_last());
        if r.contains(wanted.last()) {
            r
        } else {
            r.push(wanted.last())
        }
    }
}

/// `names` holds each of `wanted` once, and nothing else.
pub open spec fn indexes_exactly(names: Seq<Seq<char>>, wanted: Seq<Seq<char>>) -> bool {
    &&& names.no_duplicates()
    &&& forall|k: int| 0 <= k < wanted.len() ==> names.contains(#[trigger] wanted[k])
    &&& forall|i: int| 0 <= i < names.len() ==> wanted.contains(#[trigger] names[i])
}

/// `layout` places every row of `rows`: its indexes hold exactly the
/// countries and products of the rows, without repeats, and the cell of the
/// `k`th row is at the positions of its country and of its product.
pub open spec fn places_rows(layout: CellLayout, rows: Seq<ExportRow>) -> bool {
    let cs = names_of(layout.countries@);
    let ps = names_of(layout.products@);
    &&& cs == first_appearances(row_countries(rows))
    &&& ps == first_appearances(row_products(rows))
    &&& indexes_exactly(cs, row_countries(rows))
    &&& indexes_exactly(ps, row_products(rows))
    &&& layout.cells@.len() == rows.len()
    &&& forall|k: int| #![trigger layout.cells@[k]] 0 <= k < rows.len() ==> {
        &&& layout.cells@[k].0 < cs.len()
        &&& layout.cells@[k].1 < ps.len()
        &&& cs[layout.cells@[k].0 as int] == rows[k].country@
        &&& ps[layout.cells@[k].1 as int] == rows[k].product@
    }
}

/// Reading back a row: in a layout that places `rows`, a lookup of the
/// `k`th row's country and product finds the cell that the row filled.
pub proof fn lemma_layout_lookup(layout: CellLayout, rows: Seq<ExportRow>, k: int)
    requires
        places_rows(layout, rows),
        0 <= k < rows.len(),
    ensures
        scan_result(names_of(layout.countries@), rows[k].country@, Some(layout.cells@[k].0)),
        scan_result(names_of(layout.products@), rows[k].product@, Some(layout.cells@[k].1)),
{
    let c = layout.cells@[k];
    lemma_distinct_first_position(names_of(layout.countries@), rows[k].country@, c.0);
    lemma_distinct_first_position(names_of(layout.products@), rows[k].product@, c.1);
}

/// Rows of the same country and product fill the same cell, so that the
/// later row's value is the one the matrix keeps.
pub proof fn lemma_same_names_same_cell(layout: CellLayout, rows: Seq<ExportRow>, j: int, k: int)
    requires
        places_rows(layout, rows),
        0 <= j < rows.len(),
        0 <= k < rows.len(),
        rows[j].country@ == rows[k].country@,
        rows[j].product@ == rows[k].product@,
    ensures
        layout.cells@[j] == layout.cells@[k],
{
    let cs = names_of(layout.countries@);
    let ps = names_of(layout.products@);
    let a = layout.cells@[j];
    let b = layout.cells@[k];
    assert(cs[a.0 as int] == cs[b.0 as int]);
    assert(ps[a.1 as int] == ps[b.1 as int]);
}

/// Adding the name at the end of `wanted` keeps `names` exact, once `names`
/// holds it too.
proof fn lemma_index_step(
    old_names: Seq<Seq<char>>,
    names: Seq<Seq<char>>,
    wanted: Seq<Seq<char>>,
    k: int,
    i: int,
)
    requires
        0 <= k < wanted.len(),
        indexes_exactly(old_names, wanted.take(k)),
        names.no_duplicates(),
        old_names.contains(wanted[k]) ==> names == old_names,
        !old_names.contains(wanted[k]) ==> names == old_names.push(wanted[k]),
        0 <= i < names.len(),
        names[i] == wanted[k],
    ensures
        indexes_exactly(names, wanted.take(k + 1)),
{
    let w0 = wanted.take(k);
    let w1 = wanted.take(k + 1);
    assert forall|j: int| 0 <= j < w1.len() implies names.contains(#[trigger] w1[j]) by {
        if j < k {
            assert(w1[j] == w0[j]);
            assert(old_names.contains(w0[j]));
            let t = choose|t: int| 0 <= t < old_names.len() && old_names[t] == w0[j];
            assert(names[t] == old_names[t]);
        } else {
            assert(names[i] == w1[j]);
        }
    }
    assert forall|t: int| 0 <= t < names.len() implies w1.contains(#[trigger] names[t]) by {
        if t < old_names.len() {
            assert(names[t] == old_names[t]);
            assert(w0.contains(old_names[t]));
            let j = choose|j: int| 0 <= j < w0.len() && w0[j] == old_names[t];
            assert(w1[j] == w0[j]);
        } else {
            assert(names[t] == wanted[k]);
            assert(w1[k] == wanted[k]);
        }
    }
}

/// Builds the indexes of an export table and the cell of each of its rows.
/// Countries and products are numbered in the order in which they first
/// appear in the rows.
pub fn index_cells(rows: &Vec<ExportRow>) -> (layout: CellLayout)
    ensures
        places_rows(layout, rows@),
{
    let ghost wc = row_countries(rows@);
    let ghost wp = row_products(rows@);
    let mut countries = NameIndex::new();
    let mut products = NameIndex::new();
    let mut cells: Vec<(usize, usize)> = Vec::new();
    let mut k: usize = 0;
    assert(wc.take(0) =~= Seq::<Seq<char>>::empty());
    assert(wp.take(0) =~= Seq::<Seq<char>>::empty());
    assert(indexes_exactly(countries@, wc.take(0)));
    assert(indexes_exactly(products@, wp.take(0)));
    while k < rows.len()
        invariant
            k <= rows@.len(),
            wc == row_countries(rows@),
            wp == row_products(rows@),
            countries@.len() <= k,
            products@.len() <= k,
            cells@.len() == k,
            countries@ == first_appearances(wc.take(k as int)),
            products@ == first_appearances(wp.take(k as int)),
            indexes_exactly(countries@, wc.take(k as int)),
            indexes_exactly(products@, wp.take(k as int)),
            forall|j: int| #![trigger cells@[j]] 0 <= j < k ==> {
                &&& cells@[j].0 < countries@.len()
                &&& cells@[j].1 < products@.len()
                &&& countries@[cells@[j].0 as int] == rows@[j].country@
                &&& products@[cells@[j].1 as int] == rows@[j].product@
            },
        decreases rows@.len() - k,
    {
        let row = &rows[k];
        let ghost old_countries = countries@;
        let ghost old_products = products@;
        let ghost old_cells = cells@;
        let i = countries.insert(row.country.as_str());
        let j = products.insert(row.product.as_str());
        cells.push((i, j));
        proof {
            assert(wc.take(k + 1).drop_last() =~= wc.take(k as int));
            assert(wp.take(k + 1).drop_last() =~= wp.take(k as int));
            assert(wc[k as int] == row.country@);
            assert(wp[k as int] == row.product@);
            lemma_index_step(old_countries, countries@, wc, k as int, i as int);
            lemma_index_step(old_products, products@, wp, k as int, j as int);
            assert forall|jj: int| #![trigger cells@[jj]] 0 <= jj < k + 1 implies {
                &&& cells@[jj].0 < countries@.len()
                &&& cells@[jj].1 < products@.len()
                &&& countries@[cells@[jj].0 as int] == rows@[jj].country@
                &&& products@[cells@[jj].1 as int] == rows@[jj].product@
            } by {
                if jj < k {
                    assert(cells@[jj] == old_cells[jj]);
                }
            }
        }
        k = k + 1;
    }
    assert(wc.take(k as int) =~= wc);
    assert(wp.take(k as int) =~= wp);
    CellLayout { countries: countries.into_names(), products: products.into_names(), cells }
}

/// The value that the cell `(i, j)` holds once each value of `vals` has been
/// written to its cell in `cells`, in order, over a matrix of `zero`s: the
/// value of the last row written to that cell, `zero` where none was.
pub open spec fn last_value<T>(cells: Seq<(usize, usize)>, vals: Seq<T>, i: usize, j: usize, zero: T) -> T
    decreases cells.len(),
{
    if cells.len() == 0 {
        zero
    } else if cells.last() == (i, j) {
        vals[cells.len() - 1]
    } else {
        last_value(cells.drop_last(), vals, i, j, zero)
    }
}

/// A cell that no row is written to keeps `zero`.
pub proof fn lemma_unfilled_cell_is_zero<T>(cells: Seq<(usize, usize)>, vals: Seq<T>, i: usize, j: usize, zero: T)
    requires
        forall|k: int| 0 <= k < cells.len() ==> #[trigger] cells[k] != (i, j),
    ensures
        last_value(cells, vals, i, j, zero) == zero,
    decreases cells.len(),
{
    if cells.len() > 0 {
        let t = cells.drop_last();
        assert(cells[cells.len() - 1] != (i, j));
        assert forall|k: int| 0 <= k < t.len() implies #[trigger] t[k] != (i, j) by {
            assert(t[k] == cells[k]);
        }
        lemma_unfilled_cell_is_zero(t, vals, i, j, zero);
    }
}

/// A cell holds the value of the last row written to it.
pub proof fn lemma_filled_cell_holds_last_row<T>(cells: Seq<(usize, usize)>, vals: Seq<T>, zero: T, k: int)
    requires
        0 <= k < cells.len(),
        forall|q: int| k < q < cells.len() ==> #[trigger] cells[q] != cells[k],
    ensures
        last_value(cells, vals, cells[k].0, cells[k].1, zero) == vals[k],
    decreases cells.len(),
{
    if k < cells.len() - 1 {
        let t = cells.drop_last();
        assert(cells[cells.len() - 1] != cells[k]);
        assert forall|q: int| k < q < t.len() implies #[trigger] t[q] != t[k] by {
            assert(t[q] == cells[q]);
        }
        lemma_filled_cell_holds_last_row(t, vals, zero, k);
        assert(t[k] == cells[k]);
    }
}

/// Every cell of `cells` lies within an `nrows` by `ncols` matrix.
pub open spec fn cells_within(cells: Seq<(usize, usize)>, nrows: nat, ncols: nat) -> bool {
    forall|k: int| #![trigger cells[k]] 0 <= k < cells.len() ==> cells[k].0 < nrows && cells[k].1 < ncols
}

/// The values of a countries-by-products matrix, row by row: each value of
/// `vals` is written to the cell of its row in `layout`, in order, over a
/// matrix of `zero`s, so that where rows share a cell the later one's value
/// stays.
pub fn cell_values<T: Copy>(layout: &CellLayout, vals: &Vec<T>, zero: T) -> (m: Vec<Vec<T>>)
    requires
        vals@.len() == layout.cells@.len(),
        cells_within(layout.cells@, layout.countries@.len(), layout.products@.len()),
    ensures
        m@.len() == layout.countries@.len(),
        forall|i: int| #![trigger m@[i]] 0 <= i < m@.len() ==> m@[i]@.len() == layout.products@.len(),
        forall|i: usize, j: usize| #![trigger m@[i as int]@[j as int]]
            i < m@.len() && j < layout.products@.len() ==>
            m@[i as int]@[j as int] == last_value(layout.cells@, vals@, i, j, zero),
        forall|i: usize, j: usize| #![trigger m@[i as int]@[j as int]]
            i < m@.len() && j < layout.products@.len()
            && (forall|k: int| 0 <= k < layout.cells@.len() ==> layout.cells@[k] != (i, j))
            ==> m@[i as int]@[j as int] == zero,
        forall|k: int| #![trigger layout.cells@[k]]
            0 <= k < layout.cells@.len()
            && (forall|q: int| k < q < layout.cells@.len() ==> layout.cells@[q] != layout.cells@[k])
            ==> m@[layout.cells@[k].0 as int]@[layout.cells@[k].1 as int] == vals@[k],
{
    let nrows = layout.countries.len();
    let ncols = layout.products.len();
    let mut m: Vec<Vec<T>> = Vec::new();
    let mut r: usize = 0;
    while r < nrows
        invariant
            r <= nrows,
            nrows == layout.countries@.len(),
            ncols == layout.products@.len(),
            m@.len() == r,
            forall|i: int| #![trigger m@[i]] 0 <= i < r ==> m@[i]@.len() == ncols
                && forall|j: int| 0 <= j < ncols ==> #[trigger] m@[i]@[j] == zero,
        decreases nrows - r,
    {
        let mut row: Vec<T> = Vec::new();
        let mut c: usize = 0;
        while c < ncols
            invariant
                c <= ncols,
                row@.len() == c,
                forall|j: int| 0 <= j < c ==> #[trigger] row@[j] == zero,
            decreases ncols - c,
        {
            row.push(zero);
            c = c + 1;
        }
        m.push(row);
        r = r + 1;
    }
    let ghost cells = layout.cells@;
    assert(cells.take(0) =~= Seq::<(usize, usize)>::empty());
    let mut k: usize = 0;
    while k < vals.len()
        invariant
            k <= vals@.len(),
            vals@.len() == cells.len(),
            cells == layout.cells@,
            cells_within(cells, nrows as nat, ncols as nat),
            nrows == layout.countries@.len(),
            ncols == layout.products@.len(),
            m@.len() == nrows,
            forall|i: int| #![trigger m@[i]] 0 <= i < nrows ==> m@[i]@.len() == ncols,
            forall|i: usize, j: usize| #![trigger m@[i as int]@[j as int]]
                i < nrows && j < ncols ==>
                m@[i as int]@[j as int] == last_value(cells.take(k as int), vals@, i, j, zero),
        decreases vals@.len() - k,
    {
        let (ci, cj) = layout.cells[k];
        assert(cells[k as int].0 < nrows && cells[k as int].1 < ncols);
        let ghost before = m@;
        let mut row: Vec<T> = Vec::new();
        std::mem::swap(&mut row, &mut m[ci]);
        row.set(cj, vals[k]);
        m.set(ci, row);
        assert(cells.take(k + 1).drop_last() =~= cells.take(k as int));
        assert(cells.take(k + 1).last() == (ci, cj));
        assert forall|i: usize, j: usize| #![trigger m@[i as int]@[j as int]]
            i < nrows && j < ncols implies
            m@[i as int]@[j as int] == last_value(cells.take(k + 1), vals@, i, j, zero) by {
            if i == ci && j == cj {
            } else if i == ci {
                assert(m@[i as int]@[j as int] == before[i as int]@[j as int]);
            } else {
                assert(m@[i as int] == before[i as int]);
            }
        }
        k = k + 1;
    }
    assert(cells.take(k as int) =~= cells);
    assert forall|i: usize, j: usize| #![trigger m@[i as int]@[j as int]]
        i < m@.len() && j < layout.products@.len()
        && (forall|q: int| 0 <= q < layout.cells@.len() ==> layout.cells@[q] != (i, j))
        implies m@[i as int]@[j as int] == zero by {
        assert forall|q: int| 0 <= q < cells.len() implies #[trigger] cells[q] != (i, j) by {
            assert(layout.cells@[q] != (i, j));
        }
        lemma_unfilled_cell_is_zero(cells, vals@, i, j, zero);
    }
    assert forall|kk: int| #![trigger layout.cells@[kk]]
        0 <= kk < layout.cells@.len()
        && (forall|q: int| kk < q < layout.cells@.len() ==> layout.cells@[q] != layout.cells@[kk])
        implies m@[layout.cells@[kk].0 as int]@[layout.cells@[kk].1 as int] == vals@[kk] by {
        assert forall|q: int| kk < q < cells.len() implies #[trigger] cells[q] != cells[kk] by {
            assert(layout.cells@[q] != layout.cells@[kk]);
        }
        lemma_filled_cell_holds_last_row(cells, vals@, zero, kk);
        let (ci, cj) = cells[kk];
        assert(m@[ci as int]@[cj as int] == last_value(cells, vals@, ci, cj, zero));
    }
    m
}

/// Where row `k` is the last row of its country and product, the cell that
/// a lookup of those names finds holds row `k`'s value: the last row of a
/// cell is the one read back.
pub proof fn lemma_last_row_wins<T>(layout: CellLayout, rows: Seq<ExportRow>, vals: Seq<T>, zero: T, k: int)
    requires
        places_rows(layout, rows),
        0 <= k < rows.len(),
        forall|m: int| k < m < rows.len() ==> !(#[trigger] rows[m].country@ == rows[k].country@
            && rows[m].product@ == rows[k].product@),
    ensures
        last_value(layout.cells@, vals, layout.cells@[k].0, layout.cells@[k].1, zero) == vals[k],
        scan_result(names_of(layout.countries@), rows[k].country@, Some(layout.cells@[k].0)),
        scan_result(names_of(layout.products@), rows[k].product@, Some(layout.cells@[k].1)),
{
    lemma_layout_lookup(layout, rows, k);
    lemma_last_value_suffix(layout, rows, vals, zero, k, rows.len() as int);
    assert(layout.cells@.take(rows.len() as int) =~= layout.cells@);
}

proof fn lemma_last_value_suffix<T>(layout: CellLayout, rows: Seq<ExportRow>, vals: Seq<T>, zero: T, k: int, n: int)
    requires
        places_rows(layout, rows),
        0 <= k < n <= rows.len(),
        forall|m: int| k < m < rows.len() ==> !(#[trigger] rows[m].country@ == rows[k].country@
            && rows[m].product@ == rows[k].product@),
    ensures
        last_value(layout.cells@.take(n), vals, layout.cells@[k].0, layout.cells@[k].1, zero) == vals[k],
    decreases n - k,
{
    let cells = layout.cells@;
    let c = cells[k];
    if n == k + 1 {
        assert(cells.take(n).last() == c);
    } else {
        let m = n - 1;
        assert(cells.take(n).drop_last() =~= cells.take(m));
        assert(cells.take(n).last() == cells[m]);
        if cells[m] == c {
            let cs = names_of(layout.countries@);
            let ps = names_of(layout.products@);
            assert(cs[cells[m].0 as int] == rows[m].country@);
            assert(cs[c.0 as int] == rows[k].country@);
            assert(ps[cells[m].1 as int] == rows[m].product@);
            assert(ps[c.1 as int] == rows[k].product@);
            assert(rows[m].country@ == rows[k].country@);
            assert(false);
        }
        lemma_last_value_suffix(layout, rows, vals, zero, k, m);
    }
}

} // verus!
