use vstd::prelude::*;

use crate::error::Error;

verus! {

/// The names of an index, as character sequences.
pub open spec fn names_of(index: Seq<String>) -> Seq<Seq<char>> {
    index.map_values(|s: String| s@)
}

/// `i` is the first position of `name` in `names`.
pub open spec fn is_first_position(names: Seq<Seq<char>>, name: Seq<char>, i: int) -> bool {
    &&& 0 <= i < names.len()
    &&& names[i] == name
    &&& forall|j: int| 0 <= j < i ==> names[j] != name
}

/// What a scan of `names` for `name` finds: the first position of `name`,
/// or `None` where `name` is not among `names`.
pub open spec fn scan_result(names: Seq<Seq<char>>, name: Seq<char>, r: Option<usize>) -> bool {
    match r {
        Some(i) => is_first_position(names, name, i as int),
        None => !names.contains(name),
    }
}

/// In a list of distinct names, the position at which a name stands is the
/// one that a scan for it finds.
pub proof fn lemma_distinct_first_position(names: Seq<Seq<char>>, name: Seq<char>, i: usize)
    requires
        names.no_duplicates(),
        i < names.len(),
        names[i as int] == name,
    ensures
        is_first_position(names, name, i as int),
        scan_result(names, name, Some(i)),
{
}

/// Reading after writing: once `name` stands at position `i` of a list of
/// distinct names, a scan for `name` finds `i`.
pub proof fn lemma_insert_then_find(names: Seq<Seq<char>>, name: Seq<char>, i: usize, r: Option<usize>)
    requires
        names.no_duplicates(),
        i < names.len(),
        names[i as int] == name,
        scan_result(names, name, r),
    ensures
        r == Some(i),
{
}

/// The position of `name` among the names of `index`: the first one where
/// several are equal, `None` where there is none.
pub fn position(index: &[String], name: &str) -> (r: Option<usize>)
    ensures
        scan_result(names_of(index@), name@, r),
{
    let target = String::from_str(name);
    let mut i: usize = 0;
    while i < index.len()
        invariant
            i <= index@.len(),
            target@ == name@,
            forall|j: int| 0 <= j < i ==> index@[j]@ != name@,
        decreases index@.len() - i,
    {
        if index[i] == target {
            return Some(i);
        }
        i = i + 1;
    }
    proof {
        if names_of(index@).contains(name@) {
            let k = choose|k: int| 0 <= k < names_of(index@).len() && names_of(index@)[k] == name@;
            assert(index@[k]@ == name@);
        }
    }
    None
}

/// The row of `country` in a matrix whose rows are named by `country_index`,
/// or the `MissingIndex` error for the country index.
pub fn country_row(country_index: &[String], country: &str) -> (r: Result<usize, Error>)
    ensures
        match r {
            Ok(i) => is_first_position(names_of(country_index@), country@, i as int),
            Err(Error::MissingIndex { member, index }) =>
                !names_of(country_index@).contains(country@)
                && member@ == country@ && index@ == "country"@,
        },
{
    match position(country_index, country) {
        Some(i) => Ok(i),
        None => Err(Error::missing_index(country, "country")),
    }
}

/// The cell of (`country`, `product`) in a matrix whose rows are named by
/// `country_index` and whose columns are named by `product_index`. The
/// country is looked up first: where both are missing, the error names the
/// country.
pub fn country_product_cell(
    country_index: &[String],
    product_index: &[String],
    country: &str,
    product: &str,
) -> (r: Result<(usize, usize), Error>)
    ensures
        match r {
            Ok((i, j)) =>
                is_first_position(names_of(country_index@), country@, i as int)
                && is_first_position(names_of(product_index@), product@, j as int),
            Err(Error::MissingIndex { member, index }) =>
                if !names_of(country_index@).contains(country@) {
                    member@ == country@ && index@ == "country"@
                } else {
                    !names_of(product_index@).contains(product@)
                    && member@ == product@ && index@ == "product"@
                },
        },
{
    let i = match position(country_index, country) {
        Some(i) => i,
        None => { return Err(Error::missing_index(country, "country")); },
    };
    proof {
        assert(names_of(country_index@)[i as int] == country@);
    }
    match position(product_index, product) {
        Some(j) => Ok((i, j)),
        None => Err(Error::missing_index(product, "product")),
    }
}

/// A list of distinct names, each at a fixed position: the country or the
/// product index of a matrix, built while the rows of a data file are read.
pub struct NameIndex {
    names: Vec<String>,
}

impl View for NameIndex {
    type V = Seq<Seq<char>>;

    closed spec fn view(&self) -> Seq<Seq<char>> {
        names_of(self.names@)
    }
}

impl NameIndex {
    #[verifier::type_invariant]
    spec fn names_distinct(&self) -> bool {
        names_of(self.names@).no_duplicates()
    }

    /// An index with no names.
    pub fn new() -> (idx: NameIndex)
        ensures
            idx@ == Seq::<Seq<char>>::empty(),
            idx@.no_duplicates(),
    {
        let idx = NameIndex { names: Vec::new() };
        assert(idx@ =~= Seq::<Seq<char>>::empty());
        idx
    }

    /// The number of names.
    pub fn len(&self) -> (n: usize)
        ensures
            n == self@.len(),
            self@.no_duplicates(),
    {
        proof { use_type_invariant(self); }
        self.names.len()
    }

    /// The names, in the order of their positions.
    pub fn names(&self) -> (names: &Vec<String>)
        ensures
            names_of(names@) == self@,
    {
        &self.names
    }

    /// The names, in the order of their positions.
    pub fn into_names(self) -> (names: Vec<String>)
        ensures
            names_of(names@) == self@,
    {
        self.names
    }

    /// The position of `name`, `None` where it is not in the index.
    pub fn find(&self, name: &str) -> (r: Option<usize>)
        ensures
            scan_result(self@, name@, r),
            self@.no_duplicates(),
    {
        proof { use_type_invariant(self); }
        position(self.names.as_slice(), name)
    }

    /// The position of `name`: where it is in the index already, the index
    /// stays as it is; else `name` is appended at the end.
    pub fn insert(&mut self, name: &str) -> (i: usize)
        requires
            old(self)@.len() < usize::MAX,
        ensures
            old(self)@.contains(name@) ==> final(self)@ == old(self)@,
            !old(self)@.contains(name@) ==> final(self)@ == old(self)@.push(name@),
            i < final(self)@.len(),
            final(self)@[i as int] == name@,
            final(self)@.no_duplicates(),
    {
        proof { use_type_invariant(&*self); }
        match position(self.names.as_slice(), name) {
            Some(i) => i,
            None => {
                let ghost old_names = self.names@;
                let mut names = Vec::new();
                std::mem::swap(&mut names, &mut self.names);
                let n = names.len();
                names.push(String::from_str(name));
                proof {
                    assert(names_of(names@) =~= names_of(old_names).push(name@));
                }
                self.names = names;
                proof { use_type_invariant(&*self); }
                n
            },
        }
    }
}

} // verus!
