use vstd::prelude::*;

verus! {

/// The fields of `s` between tab characters: `n` tabs give `n + 1` fields,
/// empty ones included.
pub open spec fn split_tabs(s: Seq<char>) -> Seq<Seq<char>>
    decreases s.len(),
{
    if s.len() == 0 {
        seq![Seq::<char>::empty()]
    } else {
        let r = split_tabs(s.drop_last());
        if s.last() == '\t' {
            r.push(Seq::<char>::empty())
        } else {
            r.update(r.len() - 1, r.last().push(s.last()))
        }
    }
}

/// There is always at least one field.
pub proof fn lemma_split_tabs_nonempty(s: Seq<char>)
    ensures
        split_tabs(s).len() >= 1,
    decreases s.len(),
{
    if s.len() > 0 {
        lemma_split_tabs_nonempty(s.drop_last());
    }
}

/// The fields joined back with a tab between each two.
pub open spec fn join_tabs(fields: Seq<Seq<char>>) -> Seq<char>
    decreases fields.len(),
{
    if fields.len() == 0 {
        Seq::empty()
    } else if fields.len() == 1 {
        fields[0]
    } else {
        join_tabs(fields.drop_last()) + seq!['\t'] + fields.last()
    }
}

/// Splitting at tabs loses nothing and keeps no tab: joining the fields
/// with tabs gives the text back, and no field holds a tab.
pub proof fn lemma_split_tabs_join(s: Seq<char>)
    ensures
        split_tabs(s).len() >= 1,
        join_tabs(split_tabs(s)) == s,
        forall|i: int, k: int| 0 <= i < split_tabs(s).len() && 0 <= k < split_tabs(s)[i].len()
            ==> #[trigger] split_tabs(s)[i][k] != '\t',
    decreases s.len(),
{
    if s.len() == 0 {
        assert(join_tabs(split_tabs(s)) =~= s);
    } else {
        let t = s.drop_last();
        let c = s.last();
        let r = split_tabs(t);
        lemma_split_tabs_join(t);
        let f = split_tabs(s);
        if c == '\t' {
            assert(f == r.push(Seq::<char>::empty()));
            assert(f.drop_last() =~= r);
            assert(join_tabs(f) =~= s);
            assert forall|i: int, k: int| 0 <= i < f.len() && 0 <= k < f[i].len()
                implies #[trigger] f[i][k] != '\t' by {
                assert(f[i] == r[i]);
            }
        } else {
            let l = r.len() - 1;
            assert(f == r.update(l, r[l].push(c)));
            if r.len() == 1 {
                assert(join_tabs(f) == f[0]);
                assert(join_tabs(r) == r[0]);
                assert(f[0] =~= t.push(c));
                assert(t.push(c) =~= s);
            } else {
                assert(f.drop_last() =~= r.drop_last());
                assert(f.last() == r.last().push(c));
                assert(join_tabs(f) == join_tabs(r.drop_last()) + seq!['\t'] + r.last().push(c));
                assert(join_tabs(r) == join_tabs(r.drop_last()) + seq!['\t'] + r.last());
                assert(join_tabs(f) =~= join_tabs(r).push(c));
                assert(join_tabs(r).push(c) =~= s);
            }
            assert forall|i: int, k: int| 0 <= i < f.len() && 0 <= k < f[i].len()
                implies #[trigger] f[i][k] != '\t' by {
                if i < l {
                    assert(f[i] == r[i]);
                } else {
                    assert(f[i] == r[l].push(c));
                    if k < r[l].len() {
                        assert(f[i][k] == r[l][k]);
                    }
                }
            }
        }
    }
}

/// A text without tabs is one field.
pub proof fn lemma_split_tabs_no_tab(x: Seq<char>)
    requires
        forall|k: int| 0 <= k < x.len() ==> #[trigger] x[k] != '\t',
    ensures
        split_tabs(x) == seq![x],
    decreases x.len(),
{
    if x.len() == 0 {
        assert(x =~= Seq::<char>::empty());
        assert(split_tabs(x) =~= seq![x]);
    } else {
        let t = x.drop_last();
        assert forall|k: int| 0 <= k < t.len() implies #[trigger] t[k] != '\t' by {
            assert(t[k] == x[k]);
        }
        lemma_split_tabs_no_tab(t);
        assert(x[x.len() - 1] != '\t');
        assert(t.push(x.last()) =~= x);
        assert(split_tabs(x) == seq![t].update(0, t.push(x.last())));
        assert(split_tabs(x) =~= seq![x]);
    }
}

/// The fields of two texts joined by a tab are the fields of the first
/// followed by those of the second.
pub proof fn lemma_split_tabs_concat(a: Seq<char>, b: Seq<char>)
    ensures
        split_tabs(a + seq!['\t'] + b) == split_tabs(a) + split_tabs(b),
    decreases b.len(),
{
    let s = a + seq!['\t'] + b;
    if b.len() == 0 {
        assert(s.drop_last() =~= a);
        assert(s.last() == '\t');
        assert(split_tabs(b) =~= seq![Seq::<char>::empty()]);
        assert(split_tabs(s) =~= split_tabs(a) + split_tabs(b));
    } else {
        let bt = b.drop_last();
        lemma_split_tabs_concat(a, bt);
        lemma_split_tabs_nonempty(bt);
        assert(s.drop_last() =~= a + seq!['\t'] + bt);
        assert(s.last() == b.last());
        let sa = split_tabs(a);
        let r = split_tabs(bt);
        if b.last() == '\t' {
            assert(split_tabs(s) =~= sa + split_tabs(b));
        } else {
            let rr = sa + r;
            assert(split_tabs(s) == rr.update(rr.len() - 1, rr.last().push(b.last())));
            assert(split_tabs(b) == r.update(r.len() - 1, r.last().push(b.last())));
            assert(split_tabs(s) =~= sa + split_tabs(b));
        }
    }
}

/// A row written as a year, a country, a product and an export value
/// separated by tabs reads back as that country, product and value in its
/// year (unless the value is `NULL`), and is skipped in any other year.
pub proof fn lemma_row_round_trip(
    y: Seq<char>,
    c: Seq<char>,
    p: Seq<char>,
    v: Seq<char>,
    n: u32,
    year: u32,
)
    requires
        parse_u32_spec(y) == Some(n),
        forall|k: int| 0 <= k < y.len() ==> #[trigger] y[k] != '\t',
        forall|k: int| 0 <= k < c.len() ==> #[trigger] c[k] != '\t',
        forall|k: int| 0 <= k < p.len() ==> #[trigger] p[k] != '\t',
        forall|k: int| 0 <= k < v.len() ==> #[trigger] v[k] != '\t',
    ensures
        split_tabs(y + seq!['\t'] + c + seq!['\t'] + p + seq!['\t'] + v) == seq![y, c, p, v],
        n == year && v != "NULL"@ ==> row_reading(
            split_tabs(y + seq!['\t'] + c + seq!['\t'] + p + seq!['\t'] + v),
            year,
        ) == Ok::<Option<(Seq<char>, Seq<char>, Seq<char>)>, RowError>(Some((c, p, v))),
        n != year ==> row_reading(
            split_tabs(y + seq!['\t'] + c + seq!['\t'] + p + seq!['\t'] + v),
            year,
        ) == Ok::<Option<(Seq<char>, Seq<char>, Seq<char>)>, RowError>(None),
{
    lemma_split_tabs_no_tab(y);
    lemma_split_tabs_no_tab(c);
    lemma_split_tabs_no_tab(p);
    lemma_split_tabs_no_tab(v);
    lemma_split_tabs_concat(y, c);
    lemma_split_tabs_concat(y + seq!['\t'] + c, p);
    lemma_split_tabs_concat(y + seq!['\t'] + c + seq!['\t'] + p, v);
    assert(split_tabs(y + seq!['\t'] + c + seq!['\t'] + p + seq!['\t'] + v) =~= seq![y, c, p, v]);
}

/// The field ranges of `ranges` as subsequences of `s`.
pub open spec fn fields_in(s: Seq<char>, ranges: Seq<(usize, usize)>) -> Seq<Seq<char>> {
    ranges.map_values(|r: (usize, usize)| s.subrange(r.0 as int, r.1 as int))
}

/// All ranges lie within the first `n` characters and are ordered.
pub open spec fn ranges_within(ranges: Seq<(usize, usize)>, n: int) -> bool {
    forall|k: int| #![trigger ranges[k]] 0 <= k < ranges.len() ==> ranges[k].0 <= ranges[k].1 <= n
}

/// The characters of `line`, in order.
pub fn chars_of(line: &str) -> (cs: Vec<char>)
    ensures
        cs@ == line@,
{
    broadcast use vstd::string::group_string_axioms;
    let mut cs: Vec<char> = Vec::new();
    for c in it: line.chars()
        invariant
            cs@ == it.seq().take(it.index() as int),
    {
        cs.push(c);
    }
    cs
}

/// The ranges of the tab-separated fields of `cs`, in order.
pub fn tab_field_ranges(cs: &Vec<char>) -> (ranges: Vec<(usize, usize)>)
    ensures
        ranges_within(ranges@, cs@.len() as int),
        fields_in(cs@, ranges@) == split_tabs(cs@),
{
    let mut ranges: Vec<(usize, usize)> = Vec::new();
    let mut start: usize = 0;
    let mut i: usize = 0;
    assert(cs@.take(0) =~= Seq::<char>::empty());
    assert(fields_in(cs@, ranges@).push(cs@.subrange(0, 0)) =~= seq![Seq::<char>::empty()]);
    while i < cs.len()
        invariant
            i <= cs@.len(),
            start <= i,
            ranges_within(ranges@, i as int),
            split_tabs(cs@.take(i as int))
                == fields_in(cs@, ranges@).push(cs@.subrange(start as int, i as int)),
        decreases cs@.len() - i,
    {
        let ghost prev = cs@.take(i as int);
        assert(cs@.take(i + 1).drop_last() =~= prev);
        if cs[i] == '\t' {
            ranges.push((start, i));
            start = i + 1;
            assert(fields_in(cs@, ranges@) =~= fields_in(cs@, ranges@.drop_last()).push(
                cs@.subrange(ranges@.last().0 as int, i as int),
            ));
            assert(cs@.subrange(start as int, i + 1) =~= Seq::<char>::empty());
        } else {
            assert(cs@.subrange(start as int, i + 1) =~= cs@.subrange(start as int, i as int).push(
                cs@[i as int],
            ));
        }
        i = i + 1;
    }
    assert(cs@.take(i as int) =~= cs@);
    ranges.push((start, i));
    assert(fields_in(cs@, ranges@) =~= fields_in(cs@, ranges@.drop_last()).push(
        cs@.subrange(start as int, i as int),
    ));
    ranges
}

/// `c` is one of the decimal digits `0` to `9`.
pub open spec fn is_digit(c: char) -> bool {
    '0' <= c <= '9'
}

/// `s` is a non-empty run of decimal digits.
pub open spec fn all_digits(s: Seq<char>) -> bool {
    s.len() > 0 && forall|k: int| 0 <= k < s.len() ==> is_digit(#[trigger] s[k])
}

/// The number that the decimal digits `s` write, most significant first.
pub open spec fn decimal_value(s: Seq<char>) -> nat
    decreases s.len(),
{
    if s.len() == 0 {
        0
    } else {
        decimal_value(s.drop_last()) * 10 + ((s.last() as u32 - '0' as u32) as nat)
    }
}

/// What `u32`'s `from_str` accepts: an optional `+` and then decimal digits
/// whose value fits in a `u32`.
pub open spec fn parse_u32_spec(s: Seq<char>) -> Option<u32> {
    let digits = if s.len() > 0 && s[0] == '+' { s.drop_first() } else { s };
    if all_digits(digits) && decimal_value(digits) <= u32::MAX {
        Some(decimal_value(digits) as u32)
    } else {
        None
    }
}

/// The number that one decimal digit writes: `0` to `9`.
pub proof fn lemma_parse_one_digit(c: char)
    requires
        '0' <= c <= '9',
    ensures
        parse_u32_spec(seq![c]) == Some((c as u32 - '0' as u32) as u32),
{
    let s = seq![c];
    assert(s.drop_last() =~= Seq::<char>::empty());
    assert(s[0] == c);
    assert(s.last() == c);
    assert(decimal_value(Seq::<char>::empty()) == 0);
    assert(decimal_value(s) == ((c as u32 - '0' as u32) as nat));
    assert(all_digits(s));
}

/// Writing one more decimal digit after the digits of `n` writes `10 * n`
/// plus that digit, where it fits in a `u32`, and is refused where it does
/// not.
pub proof fn lemma_parse_append_digit(s: Seq<char>, c: char, n: u32)
    requires
        s.len() > 0,
        s[0] != '+',
        parse_u32_spec(s) == Some(n),
        '0' <= c <= '9',
    ensures
        n * 10 + (c as u32 - '0' as u32) <= u32::MAX ==> parse_u32_spec(s.push(c)) == Some(
            (n * 10 + (c as u32 - '0' as u32)) as u32,
        ),
        n * 10 + (c as u32 - '0' as u32) > u32::MAX ==> parse_u32_spec(s.push(c)) is None,
{
    let t = s.push(c);
    assert(t[0] == s[0]);
    assert(t.drop_last() =~= s);
    assert forall|k: int| 0 <= k < t.len() implies is_digit(#[trigger] t[k]) by {
        if k < s.len() {
            assert(t[k] == s[k]);
        }
    }
}

/// A `+` before the digits changes nothing.
pub proof fn lemma_parse_plus_sign(s: Seq<char>)
    requires
        s.len() > 0,
        s[0] != '+',
    ensures
        parse_u32_spec(seq!['+'] + s) == parse_u32_spec(s),
{
    let t = seq!['+'] + s;
    assert(t[0] == '+');
    assert(t.drop_first() =~= s);
}

/// A character other than a decimal digit, past an optional leading `+`,
/// makes the text no number.
pub proof fn lemma_parse_non_digit(s: Seq<char>, k: int)
    requires
        0 <= k < s.len(),
        !('0' <= s[k] <= '9'),
        k > 0 || s[k] != '+',
    ensures
        parse_u32_spec(s) is None,
{
    if s[0] == '+' {
        assert(s.drop_first()[k - 1] == s[k]);
    }
}

/// No text is a number when empty, nor when it is a lone `+`.
pub proof fn lemma_parse_empty()
    ensures
        parse_u32_spec(Seq::<char>::empty()) is None,
        parse_u32_spec(seq!['+']) is None,
{
    assert(seq!['+'].drop_first() =~= Seq::<char>::empty());
}

spec fn pow10(n: nat) -> nat
    decreases n,
{
    if n == 0 { 1 } else { 10 * pow10((n - 1) as nat) }
}

proof fn lemma_decimal_value_below(s: Seq<char>)
    requires
        forall|k: int| 0 <= k < s.len() ==> is_digit(#[trigger] s[k]),
    ensures
        decimal_value(s) < pow10(s.len()),
    decreases s.len(),
{
    if s.len() > 0 {
        let t = s.drop_last();
        assert forall|k: int| 0 <= k < t.len() implies is_digit(#[trigger] t[k]) by {
            assert(t[k] == s[k]);
        }
        lemma_decimal_value_below(t);
        let v = decimal_value(t);
        let p = pow10(t.len());
        let d = (s.last() as u32 - '0' as u32) as nat;
        assert(is_digit(s[s.len() - 1]));
        assert(d <= 9);
        assert(v * 10 + d < 10 * p) by (nonlinear_arith)
            requires v < p, d <= 9;
    }
}

/// Every text of one to nine decimal digits is a number: none is refused,
/// whatever its digits.
pub proof fn lemma_parse_short_digit_strings(s: Seq<char>)
    requires
        1 <= s.len() <= 9,
        forall|k: int| 0 <= k < s.len() ==> '0' <= #[trigger] s[k] <= '9',
    ensures
        parse_u32_spec(s) is Some,
{
    assert forall|k: int| 0 <= k < s.len() implies is_digit(#[trigger] s[k]) by {}
    lemma_decimal_value_below(s);
    assert(pow10(s.len()) <= 1_000_000_000) by {
        reveal_with_fuel(pow10, 10);
        assert(pow10(0) == 1);
    }
}

/// A prefix of a run of digits writes no larger a number than the run.
pub proof fn lemma_decimal_prefix_le(s: Seq<char>, k: int)
    requires
        0 <= k <= s.len(),
        forall|j: int| 0 <= j < s.len() ==> is_digit(#[trigger] s[j]),
    ensures
        decimal_value(s.take(k)) <= decimal_value(s),
    decreases s.len(),
{
    if k < s.len() {
        let t = s.drop_last();
        assert forall|j: int| 0 <= j < t.len() implies is_digit(#[trigger] t[j]) by {
            assert(t[j] == s[j]);
        }
        lemma_decimal_prefix_le(t, k);
        assert(t.take(k) =~= s.take(k));
    } else {
        assert(s.take(k) =~= s);
    }
}

/// The number that `cs[lo..hi]` writes, where it is a `u32` as `from_str`
/// reads one.
pub fn parse_u32_in(cs: &Vec<char>, lo: usize, hi: usize) -> (r: Option<u32>)
    requires
        lo <= hi <= cs@.len(),
    ensures
        r == parse_u32_spec(cs@.subrange(lo as int, hi as int)),
{
    let ghost s = cs@.subrange(lo as int, hi as int);
    let mut start = lo;
    if lo < hi && cs[lo] == '+' {
        start = lo + 1;
    }
    let ghost digits = cs@.subrange(start as int, hi as int);
    assert(digits == (if s.len() > 0 && s[0] == '+' { s.drop_first() } else { s }));
    if start == hi {
        return None;
    }
    let mut acc: u64 = 0;
    let mut k = start;
    while k < hi
        invariant
            lo <= start <= k <= hi <= cs@.len(),
            s == cs@.subrange(lo as int, hi as int),
            digits == cs@.subrange(start as int, hi as int),
            digits == (if s.len() > 0 && s[0] == '+' { s.drop_first() } else { s }),
            start < hi,
            acc <= u32::MAX,
            acc == decimal_value(cs@.subrange(start as int, k as int)),
            forall|j: int| start <= j < k ==> is_digit(#[trigger] cs@[j]),
        decreases hi - k,
    {
        let c = cs[k];
        let ghost pre = cs@.subrange(start as int, k as int);
        assert(cs@.subrange(start as int, k + 1).drop_last() =~= pre);
        if !('0' <= c && c <= '9') {
            assert(digits[k - start] == c);
            assert(!is_digit(digits[k - start]));
            return None;
        }
        let d = (c as u32 - '0' as u32) as u64;
        acc = acc * 10 + d;
        assert(cs@.subrange(start as int, k + 1).last() == c);
        assert(acc == decimal_value(cs@.subrange(start as int, k + 1)));
        if acc > 4294967295u64 {
            proof {
                assert forall|j: int| 0 <= j < (k + 1 - start) implies is_digit(
                    #[trigger] cs@.subrange(start as int, k + 1)[j],
                ) by {
                    assert(cs@.subrange(start as int, k + 1)[j] == cs@[start + j]);
                }
                if all_digits(digits) {
                    lemma_decimal_prefix_le(digits, k + 1 - start);
                    assert(digits.take(k + 1 - start) =~= cs@.subrange(start as int, k + 1));
                }
            }
            return None;
        }
        k = k + 1;
    }
    assert(cs@.subrange(start as int, k as int) =~= digits);
    assert forall|j: int| 0 <= j < digits.len() implies is_digit(#[trigger] digits[j]) by {
        assert(digits[j] == cs@[start + j]);
    }
    Some(acc as u32)
}

/// The number that `s` writes, where it is a `u32` as `from_str` reads one:
/// an optional `+` and then decimal digits whose value fits in a `u32`.
pub fn parse_u32(s: &str) -> (r: Option<u32>)
    ensures
        r == parse_u32_spec(s@),
{
    let cs = chars_of(s);
    assert(cs@.subrange(0, cs@.len() as int) =~= cs@);
    parse_u32_in(&cs, 0, cs.len())
}

/// Why a data row could not be read.
#[derive(Debug, PartialEq, Eq, Structural)]
pub enum RowError {
    /// The first field is not a year (a `u32`).
    InvalidYear,
    /// The row has no second field, the country.
    MissingCountry,
    /// The row has no third field, the product.
    MissingProduct,
    /// The row has no fourth field, the export value.
    MissingExportValue,
}

/// The export of one country in one product, as a data row gives it; the
/// value is the text of the field, not yet read as a number.
pub struct ExportRow {
    pub country: String,
    pub product: String,
    pub export_val: String,
}

/// The country, product and export value texts of a kept row.
pub open spec fn row_texts(row: ExportRow) -> (Seq<char>, Seq<char>, Seq<char>) {
    (row.country@, row.product@, row.export_val@)
}

/// A row reading with its strings taken by their texts.
pub open spec fn row_view(
    r: Result<Option<ExportRow>, RowError>,
) -> Result<Option<(Seq<char>, Seq<char>, Seq<char>)>, RowError> {
    match r {
        Ok(Some(row)) => Ok(Some(row_texts(row))),
        Ok(None) => Ok(None),
        Err(e) => Err(e),
    }
}

/// What reading a row with the fields `fields` gives, for the year `year`:
/// rows of other years and rows whose export value is `NULL` are skipped
/// (`Ok(None)`); the fields are read in order, so the first one missing
/// names the error; a kept row gives its country, product and export value.
pub open spec fn row_reading(
    fields: Seq<Seq<char>>,
    year: u32,
) -> Result<Option<(Seq<char>, Seq<char>, Seq<char>)>, RowError> {
    match parse_u32_spec(fields[0]) {
        None => Err(RowError::InvalidYear),
        Some(y) => if y != year {
            Ok(None)
        } else if fields.len() < 2 {
            Err(RowError::MissingCountry)
        } else if fields.len() < 3 {
            Err(RowError::MissingProduct)
        } else if fields.len() < 4 {
            Err(RowError::MissingExportValue)
        } else if fields[3] == "NULL"@ {
            Ok(None)
        } else {
            Ok(Some((fields[1], fields[2], fields[3])))
        },
    }
}

/// `r` is what reading a row with the fields `fields` gives, for the year
/// `year`.
pub open spec fn row_outcome(
    fields: Seq<Seq<char>>,
    year: u32,
    r: Result<Option<ExportRow>, RowError>,
) -> bool {
    row_view(r) == row_reading(fields, year)
}

/// `cs[lo..hi]` is the text `NULL`.
fn is_null_in(cs: &Vec<char>, lo: usize, hi: usize) -> (b: bool)
    requires
        lo <= hi <= cs@.len(),
    ensures
        b == (cs@.subrange(lo as int, hi as int) == "NULL"@),
{
    proof {
        reveal_strlit("NULL");
    }
    let b = hi - lo == 4 && cs[lo] == 'N' && cs[lo + 1] == 'U' && cs[lo + 2] == 'L' && cs[lo + 3] == 'L';
    proof {
        let t = cs@.subrange(lo as int, hi as int);
        assert("NULL"@.len() == 4);
        assert("NULL"@[0] == 'N' && "NULL"@[1] == 'U' && "NULL"@[2] == 'L' && "NULL"@[3] == 'L');
        if t.len() == 4 {
            assert(t[0] == cs@[lo as int] && t[1] == cs@[lo + 1] && t[2] == cs@[lo + 2] && t[3] == cs@[lo + 3]);
        }
        if b {
            assert(t =~= "NULL"@);
        } else if t == "NULL"@ {
            assert(t[0] == 'N' && t[1] == 'U' && t[2] == 'L' && t[3] == 'L');
        }
    }
    b
}

/// Reads one data row of an OEC export file (the fields `year`, `origin`,
/// `hs92`, `export_val`, ... separated by tabs) for the year `year`.
pub fn parse_row(line: &str, year: u32) -> (r: Result<Option<ExportRow>, RowError>)
    ensures
        row_outcome(split_tabs(line@), year, r),
{
    let cs = chars_of(line);
    let ranges = tab_field_ranges(&cs);
    proof {
        lemma_split_tabs_nonempty(cs@);
    }
    let ghost fields = split_tabs(cs@);
    assert(fields[0] == cs@.subrange(ranges@[0].0 as int, ranges@[0].1 as int));
    let y = match parse_u32_in(&cs, ranges[0].0, ranges[0].1) {
        Some(y) => y,
        None => { return Err(RowError::InvalidYear); },
    };
    if y != year {
        return Ok(None);
    }
    if ranges.len() < 2 {
        return Err(RowError::MissingCountry);
    }
    if ranges.len() < 3 {
        return Err(RowError::MissingProduct);
    }
    if ranges.len() < 4 {
        return Err(RowError::MissingExportValue);
    }
    assert(fields[3] == cs@.subrange(ranges@[3].0 as int, ranges@[3].1 as int));
    if is_null_in(&cs, ranges[3].0, ranges[3].1) {
        return Ok(None);
    }
    assert(fields[1] == cs@.subrange(ranges@[1].0 as int, ranges@[1].1 as int));
    assert(fields[2] == cs@.subrange(ranges@[2].0 as int, ranges@[2].1 as int));
    let country = line.substring_char(ranges[1].0, ranges[1].1).to_owned();
    let product = line.substring_char(ranges[2].0, ranges[2].1).to_owned();
    let export_val = line.substring_char(ranges[3].0, ranges[3].1).to_owned();
    Ok(Some(ExportRow { country, product, export_val }))
}

} // verus!
