use vstd::prelude::*;

use std::collections::HashMap;

use crate::index::names_of;

verus! {

broadcast use vstd::std_specs::hash::group_hash_axioms;

/// The yearly matrices that an aggregate over several years combines: for
/// each requested year that `mcps` holds, in the order of the request (a
/// year requested twice counts twice); missing years are left out.
pub open spec fn kept_matrices<M>(years: Seq<u32>, mcps: Map<u32, M>) -> Seq<M>
    decreases years.len(),
{
    if years.len() == 0 {
        Seq::empty()
    } else {
        let rest = kept_matrices(years.drop_last(), mcps);
        if mcps.contains_key(years.last()) {
            rest.push(mcps[years.last()])
        } else {
            rest
        }
    }
}

/// An aggregate never combines more matrices than years were requested,
/// and combines exactly as many when every requested year is present.
pub proof fn lemma_kept_matrices_len<M>(years: Seq<u32>, mcps: Map<u32, M>)
    ensures
        kept_matrices(years, mcps).len() <= years.len(),
        (forall|k: int| 0 <= k < years.len() ==> mcps.contains_key(#[trigger] years[k]))
            ==> kept_matrices(years, mcps).len() == years.len(),
    decreases years.len(),
{
    if years.len() > 0 {
        let t = years.drop_last();
        lemma_kept_matrices_len(t, mcps);
        if forall|k: int| 0 <= k < years.len() ==> mcps.contains_key(#[trigger] years[k]) {
            assert forall|k: int| 0 <= k < t.len() implies mcps.contains_key(#[trigger] t[k]) by {
                assert(t[k] == years[k]);
            }
            assert(mcps.contains_key(years[years.len() - 1]));
        }
    }
}

/// The matrices of the present years among `years`, in request order: the
/// matrix of each year that `mcps` holds, found by filtering the request.
pub open spec fn present_matrices<M>(years: Seq<u32>, mcps: Map<u32, M>) -> Seq<M> {
    years.filter(|y: u32| mcps.contains_key(y)).map_values(|y: u32| mcps[y])
}

/// An aggregate combines the matrices of the requested years that are
/// present, each one its own year's matrix, in the order of the request.
pub proof fn lemma_kept_matrices_are_present_years<M>(years: Seq<u32>, mcps: Map<u32, M>)
    ensures
        kept_matrices(years, mcps) == present_matrices(years, mcps),
    decreases years.len(),
{
    reveal(Seq::filter);
    let p = |y: u32| mcps.contains_key(y);
    if years.len() == 0 {
        assert(years.filter(p) =~= Seq::<u32>::empty());
        assert(present_matrices(years, mcps) =~= Seq::<M>::empty());
    } else {
        lemma_kept_matrices_are_present_years(years.drop_last(), mcps);
        let f = years.drop_last().filter(p);
        assert(years.filter(p) == (if p(years.last()) { f.push(years.last()) } else { f }));
        if mcps.contains_key(years.last()) {
            assert(f.push(years.last()).map_values(|y: u32| mcps[y]) =~= f.map_values(
                |y: u32| mcps[y],
            ).push(mcps[years.last()]));
        }
    }
}

/// Where every requested year is present, the aggregate combines one matrix
/// per requested year, the `k`th being the matrix of the `k`th year.
pub proof fn lemma_kept_matrices_all_present<M>(years: Seq<u32>, mcps: Map<u32, M>)
    requires
        forall|k: int| 0 <= k < years.len() ==> mcps.contains_key(#[trigger] years[k]),
    ensures
        kept_matrices(years, mcps).len() == years.len(),
        forall|k: int| 0 <= k < years.len() ==> #[trigger] kept_matrices(years, mcps)[k] == mcps[years[k]],
    decreases years.len(),
{
    if years.len() > 0 {
        let t = years.drop_last();
        assert forall|k: int| 0 <= k < t.len() implies mcps.contains_key(#[trigger] t[k]) by {
            assert(t[k] == years[k]);
        }
        lemma_kept_matrices_all_present(t, mcps);
        assert(mcps.contains_key(years[years.len() - 1]));
        assert forall|k: int| 0 <= k < years.len() implies #[trigger] kept_matrices(years, mcps)[k]
            == mcps[years[k]] by {
            if k < years.len() - 1 {
                assert(kept_matrices(t, mcps)[k] == mcps[t[k]]);
                assert(t[k] == years[k]);
            }
        }
    }
}

/// The data that a calculation over the years of a request uses.
pub enum YearSelection<'a, M> {
    /// A request of one year that is present: its matrix alone.
    Single(&'a M),
    /// A request of several years: the matrices of the years present (none
    /// where no year is present), and the number that averages divide by,
    /// which is the number of those matrices (missing years are skipped, not
    /// counted).
    Several { matrices: Vec<&'a M>, divisor: usize },
}

/// The matrices that `sel` refers to.
pub open spec fn selected<'a, M>(sel: YearSelection<'a, M>) -> Seq<M> {
    match sel {
        YearSelection::Single(m) => seq![*m],
        YearSelection::Several { matrices, divisor } => matrices@.map_values(|m: &M| *m),
    }
}

/// What a request of `years` selects from the yearly matrices `mcps`: no
/// year gives nothing; one year gives its matrix, or nothing where it is
/// missing; several years always give a selection: the matrices of those
/// present, in request order (none where no year is present), to be
/// averaged over their number.
pub open spec fn selection_for<'a, M>(
    years: Seq<u32>,
    mcps: Map<u32, M>,
    r: Option<YearSelection<'a, M>>,
) -> bool {
    if years.len() == 0 {
        r is None
    } else if years.len() == 1 {
        if mcps.contains_key(years[0]) {
            r matches Some(YearSelection::Single(m)) && *m == mcps[years[0]]
        } else {
            r is None
        }
    } else {
        &&& r matches Some(YearSelection::Several { matrices, divisor })
        &&& divisor == kept_matrices(years, mcps).len()
        &&& selected(r.unwrap()) == kept_matrices(years, mcps)
    }
}

/// Yearly country-by-product matrices, with the names of their rows
/// (countries) and of their columns (products); no name stands twice in an
/// index.
pub struct ProductSpace<M> {
    country_idx: Vec<String>,
    product_idx: Vec<String>,
    mcps: HashMap<u32, M>,
}

impl<M> ProductSpace<M> {
    #[verifier::type_invariant]
    spec fn names_distinct(&self) -> bool {
        &&& names_of(self.country_idx@).no_duplicates()
        &&& names_of(self.product_idx@).no_duplicates()
    }

    pub closed spec fn countries(&self) -> Seq<String> {
        self.country_idx@
    }

    pub closed spec fn products(&self) -> Seq<String> {
        self.product_idx@
    }

    /// The matrix of each year.
    pub closed spec fn years(&self) -> Map<u32, M> {
        self.mcps@
    }

    /// A product space over the given indexes and yearly matrices.
    pub fn new(country_idx: Vec<String>, product_idx: Vec<String>, mcps: HashMap<u32, M>) -> (ps: Self)
        requires
            names_of(country_idx@).no_duplicates(),
            names_of(product_idx@).no_duplicates(),
        ensures
            ps.countries() == country_idx@,
            ps.products() == product_idx@,
            ps.years() == mcps@,
    {
        ProductSpace { country_idx, product_idx, mcps }
    }

    /// The names of the rows of every matrix.
    pub fn country_index(&self) -> (idx: &Vec<String>)
        ensures
            idx@ == self.countries(),
            names_of(idx@).no_duplicates(),
    {
        proof { use_type_invariant(self); }
        &self.country_idx
    }

    /// The names of the columns of every matrix.
    pub fn product_index(&self) -> (idx: &Vec<String>)
        ensures
            idx@ == self.products(),
            names_of(idx@).no_duplicates(),
    {
        proof { use_type_invariant(self); }
        &self.product_idx
    }

    /// The matrix of one year, if there is one.
    pub fn mcp(&self, year: u32) -> (m: Option<&M>)
        ensures
            match m {
                Some(m) => self.years().contains_key(year) && *m == self.years()[year],
                None => !self.years().contains_key(year),
            },
    {
        self.mcps.get(&year)
    }

    /// The matrices that a calculation over `years` uses, and the number
    /// that an average over them divides by.
    pub fn select(&self, years: &[u32]) -> (r: Option<YearSelection<'_, M>>)
        ensures
            selection_for(years@, self.years(), r),
            years@.len() > 1 ==> r is Some && selected(r.unwrap()) == present_matrices(years@, self.years()),
            years@.len() > 1 && (forall|k: int| 0 <= k < years@.len() ==> self.years().contains_key(
                #[trigger] years@[k],
            )) ==> {
                &&& selected(r.unwrap()).len() == years@.len()
                &&& forall|k: int| 0 <= k < years@.len() ==> #[trigger] selected(r.unwrap())[k]
                    == self.years()[years@[k]]
            },
    {
        proof {
            lemma_kept_matrices_are_present_years(years@, self.mcps@);
            if forall|k: int| 0 <= k < years@.len() ==> self.mcps@.contains_key(#[trigger] years@[k]) {
                lemma_kept_matrices_all_present(years@, self.mcps@);
            }
        }
        if years.len() == 1 {
            match self.mcps.get(&years[0]) {
                Some(m) => Some(YearSelection::Single(m)),
                None => None,
            }
        } else if years.len() > 1 {
            let mut matrices: Vec<&M> = Vec::new();
            let mut i: usize = 0;
            assert(years@.take(0) =~= Seq::<u32>::empty());
            while i < years.len()
                invariant
                    i <= years@.len(),
                    matrices@.map_values(|m: &M| *m) =~= kept_matrices(years@.take(i as int), self.mcps@),
                decreases years@.len() - i,
            {
                assert(years@.take(i + 1).drop_last() =~= years@.take(i as int));
                match self.mcps.get(&years[i]) {
                    Some(m) => {
                        matrices.push(m);
                    },
                    None => {},
                }
                i = i + 1;
            }
            assert(years@.take(i as int) =~= years@);
            let divisor = matrices.len();
            Some(YearSelection::Several { matrices, divisor })
        } else {
            None
        }
    }
}

} // verus!
