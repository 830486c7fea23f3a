//! The record normalizer: classifies and discards placeholder rows,
//! excludes templated indirect-address rows while tracking their index
//! bounds, and maps each retained row of a merged grid into a typed
//! control-table record.

use vstd::prelude::*;
use vstd::string::*;
use crate::errors::{MandatoryColumn, NormalizeError};
use crate::merge::RawGrid;
use crate::records::{
    is_int_token, is_sym_token, int_token_value, strip_commas, sym_field_name, token_base,
    AccessLevel, ControlTableData, ControlTableDataV, RangeValue, RangeValueV,
};
use crate::text::{
    all_digits, char_index_from, chars_of, count_char, dec_value, digit_run, digit_run_len,
    drop_char, find_char, is_alnum_char, is_alpha_char, keep_alnum_minus, keep_alpha, matches_at,
    occurs_at, parse_dec, spec_trim, str_eq, string_from_chars, sub_chars, trim_chars,
};

verus! {

/// A placeholder glyph: a cell whose trimmed text consists solely of
/// these denotes "no value".
pub open spec fn is_glyph_char(c: char) -> bool {
    c == '.' || c == '-' || c == '…' || c == '~' || c == '\u{a0}' || c == ' '
}

/// A cell is absent when, after trimming, it is empty or holds only
/// placeholder glyphs.
pub open spec fn cell_absent(s: Seq<char>) -> bool {
    forall|i: int| 0 <= i < spec_trim(s).len() ==> is_glyph_char(#[trigger] spec_trim(s)[i])
}

fn glyph_char(c: char) -> (r: bool)
    ensures
        r == is_glyph_char(c),
{
    c == '.' || c == '-' || c == '…' || c == '~' || c == '\u{a0}' || c == ' '
}

/// Whether the cell text denotes "no value".
pub fn cell_is_absent(s: &str) -> (r: bool)
    ensures
        r == cell_absent(s@),
{
    let cs = chars_of(s);
    let t = trim_chars(&cs);
    let mut i: usize = 0;
    while i < t.len()
        invariant
            i <= t.len(),
            t@ == spec_trim(s@),
            forall|j: int| 0 <= j < i ==> is_glyph_char(#[trigger] t@[j]),
        decreases t.len() - i,
    {
        if !glyph_char(t[i]) {
            return false;
        }
        i += 1;
    }
    true
}

/// Index of the first occurrence of `name` in `header` at or after `i`;
/// -1 when there is none.
pub open spec fn col_index_from(header: Seq<Seq<char>>, name: Seq<char>, i: int) -> int
    decreases header.len() - i,
{
    if i < 0 || i >= header.len() {
        -1
    } else if header[i] == name {
        i
    } else {
        col_index_from(header, name, i + 1)
    }
}

/// Index of the first column named `name`; -1 when there is none.
pub open spec fn col_index(header: Seq<Seq<char>>, name: Seq<char>) -> int {
    col_index_from(header, name, 0)
}

/// The cell of `row` under the column named `name`: present only when the
/// column exists, the row reaches it, and the cell is not absent.
pub open spec fn row_cell(header: Seq<Seq<char>>, row: Seq<Seq<char>>, name: Seq<char>) -> Option<
    Seq<char>,
> {
    let i = col_index(header, name);
    if 0 <= i < row.len() && !cell_absent(row[i]) {
        Some(row[i])
    } else {
        None
    }
}

/// Index of the first column named `name`, if any.
fn find_col(header: &Vec<String>, name: &str) -> (r: Option<usize>)
    ensures
        match r {
            Some(i) => col_index(header.deep_view(), name@) == i as int && i < header.len(),
            None => col_index(header.deep_view(), name@) == -1,
        },
{
    let ghost h = header.deep_view();
    let mut i: usize = 0;
    while i < header.len()
        invariant
            i <= header.len(),
            h == header.deep_view(),
            h.len() == header.len(),
            col_index(h, name@) == col_index_from(h, name@, i as int),
        decreases header.len() - i,
    {
        if str_eq(header[i].as_str(), name) {
            proof {
                assert(h[i as int] == name@);
            }
            return Some(i);
        }
        i += 1;
    }
    None
}

/// Looks a heading up in the header row and hands back the row's cell
/// under it, if the column exists and the cell holds a value.
pub fn try_find(header: &Vec<String>, row: &Vec<String>, heading: &str) -> (r: Option<String>)
    ensures
        match r {
            Some(s) => row_cell(header.deep_view(), row.deep_view(), heading@) == Some(s@),
            None => row_cell(header.deep_view(), row.deep_view(), heading@) is None,
        },
{
    match find_col(header, heading) {
        Some(i) => {
            if i < row.len() {
                let cell = &row[i];
                proof {
                    assert(row.deep_view()[i as int] == cell@);
                }
                if !cell_is_absent(cell.as_str()) {
                    Some(cell.clone())
                } else {
                    None
                }
            } else {
                None
            }
        },
        None => None,
    }
}

/// Mathematical model of a `NormalizeError`.
pub ghost enum NormalizeErrorV {
    MissingMandatoryField { row: int, column: MandatoryColumn },
    UnknownAccessToken { row: int, token: Seq<char> },
    AmbiguousRangeToken { token: Seq<char> },
    UnrecognizedRangeToken { token: Seq<char> },
}

impl View for NormalizeError {
    type V = NormalizeErrorV;

    open spec fn view(&self) -> NormalizeErrorV {
        match self {
            NormalizeError::MissingMandatoryField { row, column } => {
                NormalizeErrorV::MissingMandatoryField { row: *row as int, column: *column }
            },
            NormalizeError::UnknownAccessToken { row, token } => {
                NormalizeErrorV::UnknownAccessToken { row: *row as int, token: token@ }
            },
            NormalizeError::AmbiguousRangeToken { token } => {
                NormalizeErrorV::AmbiguousRangeToken { token: token@ }
            },
            NormalizeError::UnrecognizedRangeToken { token } => {
                NormalizeErrorV::UnrecognizedRangeToken { token: token@ }
            },
        }
    }
}

/// A position where one of the two templated row patterns occurs.
pub open spec fn ind_match_at(s: Seq<char>, i: int) -> bool {
    occurs_at(s, "Indirect Address "@, i) || occurs_at(s, "Indirect Data "@, i)
}

/// First position at or after `i` where a templated pattern occurs; -1
/// when there is none.
pub open spec fn first_ind_from(s: Seq<char>, i: int) -> int
    decreases s.len() - i,
{
    if i < 0 || i >= s.len() {
        -1
    } else if ind_match_at(s, i) {
        i
    } else {
        first_ind_from(s, i + 1)
    }
}

/// Where the index token of a templated row starts, given a match at `i`.
pub open spec fn ind_token_start(s: Seq<char>, i: int) -> int {
    if occurs_at(s, "Indirect Address "@, i) {
        i + "Indirect Address "@.len()
    } else {
        i + "Indirect Data "@.len()
    }
}

/// How a row is treated, judged by its field-name text.
pub ghost enum RowClass {
    /// No templated pattern: the row becomes a record.
    Normal,
    /// Templated, with an index that is the `N` placeholder or not a
    /// representable number: excluded silently.
    IndirectSkip,
    /// Templated with a numeric index: excluded, the index tracked.
    IndirectIndexed(u32),
}

/// Classifies a field-name text against the templated row patterns.
pub open spec fn classify_name(s: Seq<char>) -> RowClass {
    let p = first_ind_from(s, 0);
    if p < 0 {
        RowClass::Normal
    } else {
        let t = ind_token_start(s, p);
        if t < s.len() && s[t] == 'N' {
            RowClass::IndirectSkip
        } else if t > s.len() {
            RowClass::IndirectSkip
        } else {
            let d = digit_run_len(s, t);
            if d == 0 {
                RowClass::IndirectSkip
            } else {
                let v = dec_value(s.subrange(t, t + d));
                if v <= u32::MAX {
                    RowClass::IndirectIndexed(v as u32)
                } else {
                    RowClass::IndirectSkip
                }
            }
        }
    }
}

/// How a row is treated, judged by its field-name cell.
pub open spec fn row_class(header: Seq<Seq<char>>, row: Seq<Seq<char>>) -> RowClass {
    match row_cell(header, row, "Data Name"@) {
        None => RowClass::Normal,
        Some(n) => classify_name(n),
    }
}

/// Exec result of classifying a row.
enum RowKind {
    Normal,
    Skip,
    Indexed(u32),
}

/// Classifies a field-name text against the templated row patterns.
fn classify_data_name(name: &Vec<char>) -> (r: RowKind)
    ensures
        match r {
            RowKind::Normal => classify_name(name@) is Normal,
            RowKind::Skip => classify_name(name@) is IndirectSkip,
            RowKind::Indexed(w) => classify_name(name@) == RowClass::IndirectIndexed(w),
        },
{
    let pa = chars_of("Indirect Address ");
    let pd = chars_of("Indirect Data ");
    let mut i: usize = 0;
    while i < name.len()
        invariant
            i <= name.len(),
            pa@ == "Indirect Address "@,
            pd@ == "Indirect Data "@,
            first_ind_from(name@, 0) == first_ind_from(name@, i as int),
        decreases name.len() - i,
    {
        if matches_at(name, &pa, i) || matches_at(name, &pd, i) {
            proof {
                assert(ind_match_at(name@, i as int));
                assert(first_ind_from(name@, i as int) == i as int);
            }
            let t: usize = if matches_at(name, &pa, i) {
                i + pa.len()
            } else {
                i + pd.len()
            };
            proof {
                assert(t as int == ind_token_start(name@, i as int));
                assert(t <= name.len());
            }
            if t < name.len() && name[t] == 'N' {
                return RowKind::Skip;
            }
            let digits = digit_run(name, t);
            if digits.len() == 0 {
                return RowKind::Skip;
            }
            match parse_dec(&digits) {
                Some(v) => {
                    if v <= 0xffff_ffffu64 {
                        return RowKind::Indexed(v as u32);
                    } else {
                        return RowKind::Skip;
                    }
                },
                None => {
                    proof {
                        crate::text::lemma_dec_value_nonneg(digits@);
                    }
                    return RowKind::Skip;
                },
            }
        }
        i += 1;
    }
    proof {
        assert(first_ind_from(name@, i as int) == -1);
    }
    RowKind::Normal
}

/// The access level a source token denotes, if any: `R`, `W`, `RW` and
/// `R/RW` are the recognized tokens.
pub open spec fn access_of(t: Seq<char>) -> Option<AccessLevel> {
    if t == "R"@ {
        Some(AccessLevel::Read)
    } else if t == "W"@ {
        Some(AccessLevel::Write)
    } else if t == "RW"@ {
        Some(AccessLevel::ReadWrite)
    } else if t == "R/RW"@ {
        Some(AccessLevel::ReadWrite)
    } else {
        None
    }
}

/// The access level a source token denotes, if any.
pub fn access_token(t: &str) -> (r: Option<AccessLevel>)
    ensures
        r == access_of(t@),
{
    if str_eq(t, "R") {
        Some(AccessLevel::Read)
    } else if str_eq(t, "W") {
        Some(AccessLevel::Write)
    } else if str_eq(t, "RW") {
        Some(AccessLevel::ReadWrite)
    } else if str_eq(t, "R/RW") {
        Some(AccessLevel::ReadWrite)
    } else {
        None
    }
}

/// The range value a comma-stripped token denotes, if it matches exactly
/// one of the two shapes and is representable.
pub open spec fn token_value(f: Seq<char>) -> Option<RangeValueV> {
    if is_sym_token(f) {
        Some(
            RangeValueV::Symbolic {
                field_name: sym_field_name(f),
                negated: token_base(f) == 1,
            },
        )
    } else if is_int_token(f) && i64::MIN <= int_token_value(f) <= i64::MAX {
        Some(RangeValueV::Integer(int_token_value(f)))
    } else {
        None
    }
}

/// A non-empty string of digits denoting a value of at most `max`.
pub open spec fn valid_uint(s: Seq<char>, max: int) -> bool {
    s.len() > 0 && all_digits(s) && dec_value(s) <= max
}

/// The characters kept of each side of a `min ~ max` range cell.
pub open spec fn range_side(s: Seq<char>) -> Seq<char> {
    s.filter(|c: char| is_alnum_char(c) || c == '-')
}

/// The initial value of a row: the `Initial Value` cell, spaces removed,
/// parsed as a range token; absent when the cell is.
pub open spec fn initial_value_spec(header: Seq<Seq<char>>, row: Seq<Seq<char>>) -> Result<
    Option<RangeValueV>,
    NormalizeErrorV,
> {
    match row_cell(header, row, "Initial Value"@) {
        None => Ok(None),
        Some(s) => {
            let spaceless = s.filter(|c: char| c != ' ');
            match token_value(strip_commas(spaceless)) {
                Some(v) => Ok(Some(v)),
                None => Err(NormalizeErrorV::UnrecognizedRangeToken { token: spaceless }),
            }
        },
    }
}

/// The range of a row. A `Range` cell with exactly one tilde is split
/// there and each side parsed; any other tilde count leaves the range
/// absent. Without a `Range` cell, separate `Min` and `Max` cells are
/// parsed directly; if either is absent the range is absent.
pub open spec fn range_spec(header: Seq<Seq<char>>, row: Seq<Seq<char>>) -> Result<
    Option<(RangeValueV, RangeValueV)>,
    NormalizeErrorV,
> {
    match row_cell(header, row, "Range"@) {
        Some(s) => {
            if s.filter(|c: char| c == '~').len() == 1 {
                let ti = char_index_from(s, '~', 0);
                let left = range_side(s.take(ti));
                let right = range_side(s.skip(ti + 1));
                match token_value(strip_commas(left)) {
                    None => Err(NormalizeErrorV::UnrecognizedRangeToken { token: left }),
                    Some(lo) => match token_value(strip_commas(right)) {
                        None => Err(NormalizeErrorV::UnrecognizedRangeToken { token: right }),
                        Some(hi) => Ok(Some((lo, hi))),
                    },
                }
            } else {
                Ok(None)
            }
        },
        None => match (row_cell(header, row, "Min"@), row_cell(header, row, "Max"@)) {
            (Some(mn), Some(mx)) => match token_value(strip_commas(mn)) {
                None => Err(NormalizeErrorV::UnrecognizedRangeToken { token: mn }),
                Some(lo) => match token_value(strip_commas(mx)) {
                    None => Err(NormalizeErrorV::UnrecognizedRangeToken { token: mx }),
                    Some(hi) => Ok(Some((lo, hi))),
                },
            },
            _ => Ok(None),
        },
    }
}

/// The record a retained row denotes, or the first error its cells give,
/// in the order the cells are read: range, address, size, access,
/// initial value.
pub open spec fn row_record(header: Seq<Seq<char>>, row: Seq<Seq<char>>, i: int) -> Result<
    ControlTableDataV,
    NormalizeErrorV,
> {
    match range_spec(header, row) {
        Err(e) => Err(e),
        Ok(rg) => match row_cell(header, row, "Address"@) {
            None => Err(
                NormalizeErrorV::MissingMandatoryField { row: i, column: MandatoryColumn::Address },
            ),
            Some(a) => {
                if !valid_uint(a, u16::MAX as int) {
                    Err(
                        NormalizeErrorV::MissingMandatoryField {
                            row: i,
                            column: MandatoryColumn::Address,
                        },
                    )
                } else {
                    match row_cell(header, row, "Size(byte)"@) {
                        None => Err(
                            NormalizeErrorV::MissingMandatoryField {
                                row: i,
                                column: MandatoryColumn::Size,
                            },
                        ),
                        Some(sz) => {
                            if !valid_uint(sz, u8::MAX as int) {
                                Err(
                                    NormalizeErrorV::MissingMandatoryField {
                                        row: i,
                                        column: MandatoryColumn::Size,
                                    },
                                )
                            } else {
                                match row_cell(header, row, "Access"@) {
                                    None => Err(
                                        NormalizeErrorV::MissingMandatoryField {
                                            row: i,
                                            column: MandatoryColumn::Access,
                                        },
                                    ),
                                    Some(t) => match access_of(t) {
                                        None => Err(
                                            NormalizeErrorV::UnknownAccessToken {
                                                row: i,
                                                token: t,
                                            },
                                        ),
                                        Some(acc) => match initial_value_spec(header, row) {
                                            Err(e) => Err(e),
                                            Ok(iv) => Ok(
                                                ControlTableDataV {
                                                    address: dec_value(a) as u16,
                                                    size: dec_value(sz) as u8,
                                                    data_name: match row_cell(
                                                        header,
                                                        row,
                                                        "Data Name"@,
                                                    ) {
                                                        Some(n) => Some(
                                                            n.filter(
                                                                |c: char| is_alpha_char(c),
                                                            ),
                                                        ),
                                                        None => None,
                                                    },
                                                    description: row_cell(
                                                        header,
                                                        row,
                                                        "Description"@,
                                                    ),
                                                    access: acc,
                                                    initial_value: iv,
                                                    range: rg,
                                                    units: None,
                                                },
                                            ),
                                        },
                                    },
                                }
                            }
                        },
                    }
                }
            },
        },
    }
}

/// Parses one range token from cell text, as `RangeValue::new` does, and
/// relates the outcome to `token_value`.
fn parse_range_token(text: &str) -> (r: Result<RangeValue, NormalizeError>)
    ensures
        match r {
            Ok(v) => token_value(strip_commas(text@)) == Some(v@),
            Err(e) => token_value(strip_commas(text@)) is None && e@
                == (NormalizeErrorV::UnrecognizedRangeToken { token: text@ }),
        },
{
    proof {
        crate::records::lemma_token_shapes_disjoint(strip_commas(text@));
    }
    RangeValue::new(text)
}

/// The range of a row, read from its cells.
fn row_range(header: &Vec<String>, row: &Vec<String>) -> (r: Result<
    Option<(RangeValue, RangeValue)>,
    NormalizeError,
>)
    ensures
        match r {
            Ok(v) => range_spec(header.deep_view(), row.deep_view()) == Ok::<
                Option<(RangeValueV, RangeValueV)>,
                NormalizeErrorV,
            >(
                match v {
                    Some((lo, hi)) => Some((lo@, hi@)),
                    None => None::<(RangeValueV, RangeValueV)>,
                },
            ),
            Err(e) => range_spec(header.deep_view(), row.deep_view()) == Err::<
                Option<(RangeValueV, RangeValueV)>,
                NormalizeErrorV,
            >(e@),
        },
{
    let ghost h = header.deep_view();
    let ghost rw = row.deep_view();
    match try_find(header, row, "Range") {
        Some(text) => {
            let cs = chars_of(text.as_str());
            let tildes = count_char(&cs, '~');
            if tildes == 1 {
                let ti = match find_char(&cs, '~') {
                    Some(ti) => ti,
                    None => {
                        proof {
                            crate::text::lemma_char_index_none(cs@, '~', 0);
                            crate::text::lemma_filter_none(cs@, |c: char| c == '~');
                            assert(false);
                        }
                        0
                    },
                };
                let left_raw = sub_chars(&cs, 0, ti);
                let right_raw = sub_chars(&cs, ti + 1, cs.len());
                let left = keep_alnum_minus(&left_raw);
                let right = keep_alnum_minus(&right_raw);
                proof {
                    assert(cs@.take(ti as int) == cs@.subrange(0, ti as int));
                    assert(cs@.skip(ti as int + 1) == cs@.subrange(ti as int + 1, cs@.len() as int));
                    assert(left@ == range_side(cs@.take(ti as int)));
                    assert(right@ == range_side(cs@.skip(ti as int + 1)));
                }
                let left_s = string_from_chars(&left);
                match parse_range_token(left_s.as_str()) {
                    Err(e) => Err(e),
                    Ok(lo) => {
                        let right_s = string_from_chars(&right);
                        match parse_range_token(right_s.as_str()) {
                            Err(e) => Err(e),
                            Ok(hi) => Ok(Some((lo, hi))),
                        }
                    },
                }
            } else {
                Ok(None)
            }
        },
        None => {
            match try_find(header, row, "Min") {
                Some(mn) => {
                    match try_find(header, row, "Max") {
                        Some(mx) => {
                            match parse_range_token(mn.as_str()) {
                                Err(e) => Err(e),
                                Ok(lo) => {
                                    match parse_range_token(mx.as_str()) {
                                        Err(e) => Err(e),
                                        Ok(hi) => Ok(Some((lo, hi))),
                                    }
                                },
                            }
                        },
                        None => Ok(None),
                    }
                },
                None => Ok(None),
            }
        },
    }
}

/// Maps one retained row into a typed record; the first offending cell
/// aborts the row with its error.
fn row_to_record(header: &Vec<String>, row: &Vec<String>, i: usize) -> (r: Result<
    ControlTableData,
    NormalizeError,
>)
    ensures
        match r {
            Ok(d) => row_record(header.deep_view(), row.deep_view(), i as int) == Ok::<
                ControlTableDataV,
                NormalizeErrorV,
            >(d@),
            Err(e) => row_record(header.deep_view(), row.deep_view(), i as int) == Err::<
                ControlTableDataV,
                NormalizeErrorV,
            >(e@),
        },
{
    let ghost h = header.deep_view();
    let ghost rw = row.deep_view();
    let range = match row_range(header, row) {
        Err(e) => {
            return Err(e);
        },
        Ok(rg) => rg,
    };
    let address: u16 = match try_find(header, row, "Address") {
        None => {
            return Err(
                NormalizeError::MissingMandatoryField { row: i, column: MandatoryColumn::Address },
            );
        },
        Some(a) => {
            let cs = chars_of(a.as_str());
            match parse_dec(&cs) {
                Some(x) if x <= 0xffffu64 => x as u16,
                _ => {
                    return Err(
                        NormalizeError::MissingMandatoryField {
                            row: i,
                            column: MandatoryColumn::Address,
                        },
                    );
                },
            }
        },
    };
    let size: u8 = match try_find(header, row, "Size(byte)") {
        None => {
            return Err(
                NormalizeError::MissingMandatoryField { row: i, column: MandatoryColumn::Size },
            );
        },
        Some(sz) => {
            let cs = chars_of(sz.as_str());
            match parse_dec(&cs) {
                Some(x) if x <= 0xffu64 => x as u8,
                _ => {
                    return Err(
                        NormalizeError::MissingMandatoryField {
                            row: i,
                            column: MandatoryColumn::Size,
                        },
                    );
                },
            }
        },
    };
    let access: AccessLevel = match try_find(header, row, "Access") {
        None => {
            return Err(
                NormalizeError::MissingMandatoryField { row: i, column: MandatoryColumn::Access },
            );
        },
        Some(t) => match access_token(t.as_str()) {
            None => {
                return Err(NormalizeError::UnknownAccessToken { row: i, token: t });
            },
            Some(acc) => acc,
        },
    };
    let initial_value: Option<RangeValue> = match try_find(header, row, "Initial Value") {
        None => None,
        Some(val) => {
            let cs = chars_of(val.as_str());
            let spaceless = drop_char(&cs, ' ');
            let s2 = string_from_chars(&spaceless);
            match parse_range_token(s2.as_str()) {
                Err(e) => {
                    return Err(e);
                },
                Ok(v) => Some(v),
            }
        },
    };
    let data_name: Option<String> = match try_find(header, row, "Data Name") {
        None => None,
        Some(n) => {
            let cs = chars_of(n.as_str());
            let letters = keep_alpha(&cs);
            Some(string_from_chars(&letters))
        },
    };
    let description: Option<String> = try_find(header, row, "Description");
    let data = ControlTableData {
        address,
        size,
        data_name,
        description,
        access,
        initial_value,
        range,
        units: None,
    };
    proof {
        assert(row_record(h, rw, i as int) == Ok::<ControlTableDataV, NormalizeErrorV>(data@));
    }
    Ok(data)
}

/// Every cell of the row is absent: a blank separator row.
pub open spec fn row_all_absent(row: Seq<Seq<char>>) -> bool {
    forall|i: int| 0 <= i < row.len() ==> cell_absent(#[trigger] row[i])
}

/// Whether every cell of the row is absent.
fn row_absent(row: &Vec<String>) -> (r: bool)
    ensures
        r == row_all_absent(row.deep_view()),
{
    let mut i: usize = 0;
    while i < row.len()
        invariant
            i <= row.len(),
            forall|j: int| 0 <= j < i ==> cell_absent(#[trigger] row.deep_view()[j]),
        decreases row.len() - i,
    {
        if !cell_is_absent(row[i].as_str()) {
            proof {
                assert(!cell_absent(row.deep_view()[i as int]));
            }
            return false;
        }
        i += 1;
    }
    true
}

/// The normalized outcome for one device: the records of the retained
/// rows in document order, and the least and greatest numeric indirect
/// index observed, if any.
#[derive(Debug)]
pub struct NormalizedServo {
    pub records: Vec<ControlTableData>,
    pub indirect_bounds: Option<(u32, u32)>,
}

/// Mathematical model of a `NormalizedServo`.
pub ghost struct NormalizedServoV {
    pub records: Seq<ControlTableDataV>,
    pub indirect_bounds: Option<(u32, u32)>,
}

impl View for NormalizedServo {
    type V = NormalizedServoV;

    open spec fn view(&self) -> NormalizedServoV {
        NormalizedServoV {
            records: self.records.deep_view(),
            indirect_bounds: self.indirect_bounds,
        }
    }
}

/// Folds one observed indirect index into the tracked bounds.
pub open spec fn upd_bounds(b: Option<(u32, u32)>, v: u32) -> Option<(u32, u32)> {
    match b {
        None => Some((v, v)),
        Some((lo, hi)) => Some(
            (
                if v < lo {
                    v
                } else {
                    lo
                },
                if v > hi {
                    v
                } else {
                    hi
                },
            ),
        ),
    }
}

/// The normalized outcome of a grid's rows: blank rows are discarded,
/// templated indirect rows are excluded (numeric indices tracked into the
/// bounds), and every other row becomes a record; the first offending row
/// aborts the device with its error.
pub open spec fn normalize_rows(header: Seq<Seq<char>>, rows: Seq<Seq<Seq<char>>>) -> Result<
    NormalizedServoV,
    NormalizeErrorV,
>
    decreases rows.len(),
{
    if rows.len() == 0 {
        Ok(NormalizedServoV { records: Seq::empty(), indirect_bounds: None })
    } else {
        match normalize_rows(header, rows.drop_last()) {
            Err(e) => Err(e),
            Ok(acc) => {
                let row = rows.last();
                let i = rows.len() - 1;
                if row_all_absent(row) {
                    Ok(acc)
                } else {
                    match row_class(header, row) {
                        RowClass::Normal => match row_record(header, row, i) {
                            Err(e) => Err(e),
                            Ok(d) => Ok(
                                NormalizedServoV {
                                    records: acc.records.push(d),
                                    indirect_bounds: acc.indirect_bounds,
                                },
                            ),
                        },
                        RowClass::IndirectSkip => Ok(acc),
                        RowClass::IndirectIndexed(v) => Ok(
                            NormalizedServoV {
                                records: acc.records,
                                indirect_bounds: upd_bounds(acc.indirect_bounds, v),
                            },
                        ),
                    }
                }
            },
        }
    }
}

/// An error in some prefix of the rows is the outcome for all the rows.
proof fn lemma_normalize_prefix_err(header: Seq<Seq<char>>, rows: Seq<Seq<Seq<char>>>, k: int)
    requires
        0 <= k <= rows.len(),
        normalize_rows(header, rows.take(k)) is Err,
    ensures
        normalize_rows(header, rows) == normalize_rows(header, rows.take(k)),
    decreases rows.len() - k,
{
    if k == rows.len() {
        assert(rows.take(k) =~= rows);
    } else {
        let t = rows.take(k + 1);
        assert(t.drop_last() =~= rows.take(k));
        assert(normalize_rows(header, t) == normalize_rows(header, rows.take(k)));
        lemma_normalize_prefix_err(header, rows, k + 1);
    }
}

/// Normalizes a merged grid into typed records.
///
/// Blank separator rows are discarded; rows whose field-name text matches
/// the templated indirect patterns are excluded, with numeric indices
/// tracked into the reported bounds; every other row is mapped into a
/// record by `row_record`. The first offending row aborts the device
/// with its error.
pub fn parse_servo(servo: &RawGrid) -> (r: Result<NormalizedServo, NormalizeError>)
    ensures
        match r {
            Ok(t) => normalize_rows(servo@.header, servo@.rows) == Ok::<
                NormalizedServoV,
                NormalizeErrorV,
            >(t@),
            Err(e) => normalize_rows(servo@.header, servo@.rows) == Err::<
                NormalizedServoV,
                NormalizeErrorV,
            >(e@),
        },
{
    let ghost h = servo@.header;
    let ghost rs = servo@.rows;
    let mut records: Vec<ControlTableData> = Vec::new();
    let mut bounds: Option<(u32, u32)> = None;
    let mut i: usize = 0;
    proof {
        assert(rs.take(0) =~= Seq::<Seq<Seq<char>>>::empty());
        assert(records.deep_view() =~= Seq::<ControlTableDataV>::empty());
    }
    while i < servo.rows.len()
        invariant
            i <= servo.rows.len(),
            h == servo@.header,
            rs == servo@.rows,
            rs.len() == servo.rows.len(),
            normalize_rows(h, rs.take(i as int)) == Ok::<NormalizedServoV, NormalizeErrorV>(
                NormalizedServoV { records: records.deep_view(), indirect_bounds: bounds },
            ),
        decreases servo.rows.len() - i,
    {
        let row = &servo.rows[i];
        proof {
            assert(rs.take(i as int + 1).drop_last() =~= rs.take(i as int));
            assert(rs.take(i as int + 1).last() == rs[i as int]);
            assert(rs[i as int] == row.deep_view());
        }
        if !row_absent(row) {
            let kind = match try_find(&servo.header, row, "Data Name") {
                None => RowKind::Normal,
                Some(n) => {
                    let cs = chars_of(n.as_str());
                    classify_data_name(&cs)
                },
            };
            match kind {
                RowKind::Normal => {
                    proof {
                        assert(row_class(h, rs[i as int]) is Normal);
                    }
                    match row_to_record(&servo.header, row, i) {
                        Err(e) => {
                            proof {
                                lemma_normalize_prefix_err(h, rs, i as int + 1);
                            }
                            return Err(e);
                        },
                        Ok(d) => {
                            let ghost recs_old = records.deep_view();
                            records.push(d);
                            proof {
                                assert(records.deep_view() =~= recs_old.push(d@));
                            }
                        },
                    }
                },
                RowKind::Skip => {
                    proof {
                        assert(row_class(h, rs[i as int]) is IndirectSkip);
                    }
                },
                RowKind::Indexed(v) => {
                    proof {
                        assert(row_class(h, rs[i as int]) == RowClass::IndirectIndexed(v));
                    }
                    bounds = match bounds {
                        None => Some((v, v)),
                        Some((lo, hi)) => Some(
                            (
                                if v < lo {
                                    v
                                } else {
                                    lo
                                },
                                if v > hi {
                                    v
                                } else {
                                    hi
                                },
                            ),
                        ),
                    };
                },
            }
        }
        i += 1;
    }
    proof {
        assert(rs.take(rs.len() as int) =~= rs);
    }
    Ok(NormalizedServo { records, indirect_bounds: bounds })
}

} // verus!
