use vstd::prelude::*;

use crate::rows::{parse_row, parse_u32_spec, row_reading, row_texts, split_tabs, ExportRow, RowError};

verus! {

/// What reading the data lines `lines` of an export table gives for the
/// year `year`: the rows kept, in order, or the error of the first line that
/// cannot be read.
pub open spec fn read_body(
    lines: Seq<Seq<char>>,
    year: u32,
) -> Result<Seq<(Seq<char>, Seq<char>, Seq<char>)>, RowError>
    decreases lines.len(),
{
    if lines.len() == 0 {
        Ok(Seq::empty())
    } else {
        match read_body(lines.drop_last(), year) {
            Err(e) => Err(e),
            Ok(rows) => match row_reading(split_tabs(lines.last()), year) {
                Err(e) => Err(e),
                Ok(None) => Ok(rows),
                Ok(Some(row)) => Ok(rows.push(row)),
            },
        }
    }
}

/// What reading the lines of an export table gives: its first line is the
/// header and is not read as data.
pub open spec fn read_table(
    lines: Seq<Seq<char>>,
    year: u32,
) -> Result<Seq<(Seq<char>, Seq<char>, Seq<char>)>, RowError> {
    if lines.len() == 0 {
        Ok(Seq::empty())
    } else {
        read_body(lines.drop_first(), year)
    }
}

/// The first field of `line` is a year other than `year`.
pub open spec fn of_other_year(line: Seq<char>, year: u32) -> bool {
    parse_u32_spec(split_tabs(line)[0]) matches Some(y) && y != year
}

/// Data lines of other years change nothing, wherever they stand.
proof fn lemma_body_other_year_line(a: Seq<Seq<char>>, x: Seq<char>, b: Seq<Seq<char>>, year: u32)
    requires
        of_other_year(x, year),
    ensures
        read_body(a + seq![x] + b, year) == read_body(a + b, year),
    decreases b.len(),
{
    if b.len() == 0 {
        assert((a + seq![x] + b).drop_last() =~= a);
        assert(a + b =~= a);
    } else {
        lemma_body_other_year_line(a, x, b.drop_last(), year);
        assert((a + seq![x] + b).drop_last() =~= a + seq![x] + b.drop_last());
        assert((a + b).drop_last() =~= a + b.drop_last());
        assert((a + seq![x] + b).last() == b.last());
        assert((a + b).last() == b.last());
    }
}

/// Lines of other years that stand anywhere after the header of an export
/// table have no effect on what is read from it.
pub proof fn lemma_other_year_lines_ignored(a: Seq<Seq<char>>, x: Seq<char>, b: Seq<Seq<char>>, year: u32)
    requires
        a.len() >= 1,
        of_other_year(x, year),
    ensures
        read_table(a + seq![x] + b, year) == read_table(a + b, year),
{
    lemma_body_other_year_line(a.drop_first(), x, b, year);
    assert((a + seq![x] + b).drop_first() =~= a.drop_first() + seq![x] + b);
    assert((a + b).drop_first() =~= a.drop_first() + b);
}

proof fn lemma_body_error_stays(a: Seq<Seq<char>>, b: Seq<Seq<char>>, year: u32, e: RowError)
    requires
        read_body(a, year) == Err::<Seq<(Seq<char>, Seq<char>, Seq<char>)>, RowError>(e),
    ensures
        read_body(a + b, year) == Err::<Seq<(Seq<char>, Seq<char>, Seq<char>)>, RowError>(e),
    decreases b.len(),
{
    if b.len() == 0 {
        assert(a + b =~= a);
    } else {
        lemma_body_error_stays(a, b.drop_last(), year, e);
        assert((a + b).drop_last() =~= a + b.drop_last());
    }
}

/// The first line that cannot be read decides the error, whatever lines
/// follow it.
pub proof fn lemma_first_bad_line_decides(a: Seq<Seq<char>>, l: Seq<char>, b: Seq<Seq<char>>, year: u32, e: RowError)
    requires
        a.len() >= 1,
        read_table(a, year) is Ok,
        row_reading(split_tabs(l), year) == Err::<Option<(Seq<char>, Seq<char>, Seq<char>)>, RowError>(e),
    ensures
        read_table(a.push(l) + b, year) == Err::<Seq<(Seq<char>, Seq<char>, Seq<char>)>, RowError>(e),
{
    let body = a.drop_first().push(l);
    assert(body.drop_last() =~= a.drop_first());
    assert(body.last() == l);
    lemma_body_error_stays(body, b, year, e);
    assert((a.push(l) + b).drop_first() =~= body + b);
}

/// The row that a line that is kept gives.
pub open spec fn kept_row(l: Seq<char>, year: u32) -> (Seq<char>, Seq<char>, Seq<char>) {
    (row_reading(split_tabs(l), year)->Ok_0)->Some_0
}

/// Where every data line is a row of the year with an export value, the
/// table holds one row per data line, in the order of the lines.
pub proof fn lemma_all_lines_kept(lines: Seq<Seq<char>>, year: u32)
    requires
        lines.len() >= 1,
        forall|k: int| 1 <= k < lines.len() ==> #[trigger] row_reading(split_tabs(lines[k]), year) is Ok
            && row_reading(split_tabs(lines[k]), year)->Ok_0 is Some,
    ensures
        read_table(lines, year) == Ok::<Seq<(Seq<char>, Seq<char>, Seq<char>)>, RowError>(
            lines.drop_first().map_values(|l: Seq<char>| kept_row(l, year)),
        ),
{
    lemma_body_all_kept(lines.drop_first(), year);
}

proof fn lemma_body_all_kept(body: Seq<Seq<char>>, year: u32)
    requires
        forall|k: int| 0 <= k < body.len() ==> #[trigger] row_reading(split_tabs(body[k]), year) is Ok
            && row_reading(split_tabs(body[k]), year)->Ok_0 is Some,
    ensures
        read_body(body, year) == Ok::<Seq<(Seq<char>, Seq<char>, Seq<char>)>, RowError>(
            body.map_values(|l: Seq<char>| kept_row(l, year)),
        ),
    decreases body.len(),
{
    if body.len() == 0 {
        assert(body.map_values(|l: Seq<char>| kept_row(l, year)) =~= Seq::empty());
    } else {
        let t = body.drop_last();
        assert forall|k: int| 0 <= k < t.len() implies #[trigger] row_reading(split_tabs(t[k]), year) is Ok
            && row_reading(split_tabs(t[k]), year)->Ok_0 is Some by {
            assert(t[k] == body[k]);
            assert(row_reading(split_tabs(body[k]), year) is Ok);
        }
        lemma_body_all_kept(t, year);
        assert(row_reading(split_tabs(body[body.len() - 1]), year) is Ok);
        assert(body.map_values(|l: Seq<char>| kept_row(l, year)) =~= t.map_values(
            |l: Seq<char>| kept_row(l, year),
        ).push(kept_row(body.last(), year)));
    }
}

/// The rows of an export table for one year, read line by line: the first
/// line is the header; each later line is kept, skipped, or refused.
pub struct ExportTable {
    year: u32,
    header_read: bool,
    lines: Ghost<Seq<Seq<char>>>,
    rows: Vec<ExportRow>,
}

impl ExportTable {
    #[verifier::type_invariant]
    spec fn reads_its_lines(&self) -> bool {
        &&& self.header_read == (self.lines@.len() > 0)
        &&& read_table(self.lines@, self.year) == Ok::<Seq<(Seq<char>, Seq<char>, Seq<char>)>, RowError>(
            self.rows@.map_values(|r: ExportRow| row_texts(r)),
        )
    }

    /// The year whose rows are kept.
    pub closed spec fn year(&self) -> u32 {
        self.year
    }

    /// The lines read so far.
    pub closed spec fn lines(&self) -> Seq<Seq<char>> {
        self.lines@
    }

    /// The texts of the rows kept so far.
    pub closed spec fn kept(&self) -> Seq<(Seq<char>, Seq<char>, Seq<char>)> {
        self.rows@.map_values(|r: ExportRow| row_texts(r))
    }

    /// A table that has read no line yet.
    pub fn new(year: u32) -> (t: ExportTable)
        ensures
            t.year() == year,
            t.lines() == Seq::<Seq<char>>::empty(),
            t.kept() == Seq::<(Seq<char>, Seq<char>, Seq<char>)>::empty(),
    {
        let rows: Vec<ExportRow> = Vec::new();
        assert(rows@.map_values(|r: ExportRow| row_texts(r)) =~= Seq::empty());
        ExportTable { year, header_read: false, lines: Ghost(Seq::empty()), rows }
    }

    /// Reads the next line. Where the lines read so far, this one included,
    /// read without error, the line is taken and the result tells whether
    /// it added a row; else the table stays as it was and the error of the
    /// line is returned.
    pub fn push_line(&mut self, line: &str) -> (r: Result<bool, RowError>)
        ensures
            final(self).year() == old(self).year(),
            read_table(old(self).lines(), old(self).year()) == Ok::<Seq<(Seq<char>, Seq<char>, Seq<char>)>, RowError>(
                old(self).kept(),
            ),
            match read_table(old(self).lines().push(line@), old(self).year()) {
                Ok(rows) => {
                    &&& r == Ok::<bool, RowError>(rows.len() > old(self).kept().len())
                    &&& final(self).lines() == old(self).lines().push(line@)
                    &&& final(self).kept() == rows
                },
                Err(e) => {
                    &&& r == Err::<bool, RowError>(e)
                    &&& final(self).lines() == old(self).lines()
                    &&& final(self).kept() == old(self).kept()
                },
            },
    {
        proof { use_type_invariant(&*self); }
        let ghost old_kept = self.rows@.map_values(|r: ExportRow| row_texts(r));
        let ghost old_lines = self.lines@;
        let ghost new_lines = old_lines.push(line@);
        assert(new_lines.drop_last() =~= old_lines);
        if !self.header_read {
            assert(new_lines.drop_first() =~= Seq::<Seq<char>>::empty());
            let mut t = ExportTable::new(self.year);
            std::mem::swap(self, &mut t);
            let ExportTable { year, header_read, lines, rows } = t;
            *self = ExportTable { year, header_read: true, lines: Ghost(new_lines), rows };
            return Ok(false);
        }
        assert(new_lines.drop_first().drop_last() =~= old_lines.drop_first());
        assert(new_lines.drop_first().last() == line@);
        match parse_row(line, self.year) {
            Err(e) => Err(e),
            Ok(None) => {
                let mut t = ExportTable::new(self.year);
                std::mem::swap(self, &mut t);
                let ExportTable { year, header_read, lines, rows } = t;
                *self = ExportTable { year, header_read, lines: Ghost(new_lines), rows };
                Ok(false)
            },
            Ok(Some(row)) => {
                let ghost tx = row_texts(row);
                let mut t = ExportTable::new(self.year);
                std::mem::swap(self, &mut t);
                let ExportTable { year, header_read, lines, mut rows } = t;
                rows.push(row);
                assert(rows@.map_values(|r: ExportRow| row_texts(r)) =~= old_kept.push(tx));
                *self = ExportTable { year, header_read, lines: Ghost(new_lines), rows };
                Ok(true)
            },
        }
    }

    /// The rows kept so far, in the order of their lines.
    pub fn rows(&self) -> (rows: &Vec<ExportRow>)
        ensures
            rows@.map_values(|r: ExportRow| row_texts(r)) == self.kept(),
    {
        &self.rows
    }

    /// The rows kept, in the order of their lines.
    pub fn into_rows(self) -> (rows: Vec<ExportRow>)
        ensures
            rows@.map_values(|r: ExportRow| row_texts(r)) == self.kept(),
    {
        self.rows
    }
}

} // verus!
