//! The table merger: extracts the two register-map tables of a device
//! page into a header row and a grid of cell text, enforces that both
//! tables share one header vector, and concatenates their bodies.

use vstd::prelude::*;
use convert_case::{Case, Casing};
use crate::errors::MergeError;
use crate::records::strip_commas;
use crate::text::{chars_of, drop_char, spec_trim, str_eq, string_from_chars, trim_chars};

verus! {

/// What the HTML parser finds in a page: for each `<table>` element in
/// document order, the cells matching `tr>*` in document order, each as
/// its tag name and its concatenated text.
pub uninterp spec fn tables_of(page: Seq<char>) -> Seq<Seq<(Seq<char>, Seq<char>)>>;

/// Relies on scraper: `Html::parse_document` followed by CSS selection
/// yields the `<table>` elements of the document in order and, within
/// each, the `tr>*` elements (header and data cells) in order, each
/// reported as its tag name and its concatenated text. The result depends
/// on the page text alone.
#[verifier::external_body]
fn extract_tables(page: &str) -> (r: Vec<Vec<(String, String)>>)
    ensures
        r.deep_view() == tables_of(page@),
{
    let table_sel = scraper::Selector::parse("table").unwrap();
    let cell_sel = scraper::Selector::parse("tr>*").unwrap();
    let document = scraper::Html::parse_document(page);
    let mut tables = Vec::new();
    for table in document.select(&table_sel) {
        let mut cells = Vec::new();
        for cell in table.select(&cell_sel) {
            cells.push((cell.value().name().to_string(), cell.text().collect::<String>()));
        }
        tables.push(cells);
    }
    tables
}

/// What convert_case makes of a heading: the title-cased form of `s`.
pub uninterp spec fn title_case_of(s: Seq<char>) -> Seq<char>;

/// Relies on convert_case's `Casing::to_case` with `Case::Title`: the
/// result depends on the input characters alone.
#[verifier::external_body]
fn to_title_case(s: &str) -> (r: String)
    ensures
        r@ == title_case_of(s@),
{
    s.to_case(Case::Title)
}

/// A cell whose tag is `th` is a heading cell.
pub open spec fn is_heading_cell(c: (Seq<char>, Seq<char>)) -> bool {
    c.0 == seq!['t', 'h']
}

/// A heading contributes its title-cased text, commas stripped.
pub open spec fn heading_text(c: (Seq<char>, Seq<char>)) -> Seq<char> {
    strip_commas(title_case_of(c.1))
}

/// A body cell contributes its text, commas stripped.
pub open spec fn body_cell_text(c: (Seq<char>, Seq<char>)) -> Seq<char> {
    strip_commas(c.1)
}

/// A body cell is kept when its text is not blank after trimming.
pub open spec fn body_cell_kept(c: (Seq<char>, Seq<char>)) -> bool {
    !is_heading_cell(c) && spec_trim(strip_commas(c.1)).len() > 0
}

/// The header vector of one table: the heading cells' texts in order.
pub open spec fn header_spec(cells: Seq<(Seq<char>, Seq<char>)>) -> Seq<Seq<char>>
    decreases cells.len(),
{
    if cells.len() == 0 {
        Seq::empty()
    } else if is_heading_cell(cells.last()) {
        header_spec(cells.drop_last()).push(heading_text(cells.last()))
    } else {
        header_spec(cells.drop_last())
    }
}

/// The kept body cells' texts of one table, in order.
pub open spec fn body_cells_spec(cells: Seq<(Seq<char>, Seq<char>)>) -> Seq<Seq<char>>
    decreases cells.len(),
{
    if cells.len() == 0 {
        Seq::empty()
    } else if body_cell_kept(cells.last()) {
        body_cells_spec(cells.drop_last()).push(body_cell_text(cells.last()))
    } else {
        body_cells_spec(cells.drop_last())
    }
}

/// Fixed-width chunking of the body cells into rows of `n`; a row is
/// started fresh whenever the running cell count reaches the header
/// width, so the final row may be shorter. No rows when `n` is 0.
pub open spec fn chunk_rows(s: Seq<Seq<char>>, n: nat) -> Seq<Seq<Seq<char>>>
    decreases s.len(),
{
    if n == 0 || s.len() == 0 {
        Seq::empty()
    } else if s.len() <= n {
        seq![s]
    } else {
        seq![s.take(n as int)] + chunk_rows(s.skip(n as int), n)
    }
}

/// The data rows of one table.
pub open spec fn table_rows(cells: Seq<(Seq<char>, Seq<char>)>) -> Seq<Seq<Seq<char>>> {
    chunk_rows(body_cells_spec(cells), header_spec(cells).len())
}

/// Every chunked row holds between 1 and `n` cells.
pub proof fn lemma_chunk_rows_wf(s: Seq<Seq<char>>, n: nat)
    ensures
        forall|i: int|
            0 <= i < chunk_rows(s, n).len() ==> 0 < (#[trigger] chunk_rows(s, n)[i]).len() <= n,
    decreases s.len(),
{
    if n == 0 || s.len() == 0 {
    } else if s.len() <= n {
        assert(chunk_rows(s, n) == seq![s]);
        assert(chunk_rows(s, n)[0] == s);
    } else {
        lemma_chunk_rows_wf(s.skip(n as int), n);
        let c = chunk_rows(s, n);
        assert(c == seq![s.take(n as int)] + chunk_rows(s.skip(n as int), n));
        assert(c[0] == s.take(n as int));
        assert(forall|i: int|
            1 <= i < c.len() ==> #[trigger] c[i] == chunk_rows(s.skip(n as int), n)[i - 1]);
    }
}

/// A merged two-table grid: the shared header vector and the data rows of
/// both tables, first table's rows first.
#[derive(Debug)]
pub struct RawGrid {
    pub header: Vec<String>,
    pub rows: Vec<Vec<String>>,
}

/// Mathematical model of a `RawGrid`.
pub ghost struct RawGridV {
    pub header: Seq<Seq<char>>,
    pub rows: Seq<Seq<Seq<char>>>,
}

impl View for RawGrid {
    type V = RawGridV;

    open spec fn view(&self) -> RawGridV {
        RawGridV { header: self.header.deep_view(), rows: self.rows.deep_view() }
    }
}

impl RawGrid {
    /// Every row is non-empty and no wider than the header.
    pub open spec fn wf(&self) -> bool {
        forall|i: int|
            0 <= i < self@.rows.len() ==> 0 < (#[trigger] self@.rows[i]).len()
                <= self@.header.len()
    }
}

/// Extracts one table's header vector and body grid from its cells.
fn parse_table(cells: &Vec<(String, String)>) -> (r: (Vec<String>, Vec<Vec<String>>))
    ensures
        r.0.deep_view() == header_spec(cells.deep_view()),
        r.1.deep_view() == table_rows(cells.deep_view()),
{
    let ghost cv = cells.deep_view();
    let mut header: Vec<String> = Vec::new();
    let mut body: Vec<String> = Vec::new();
    let mut i: usize = 0;
    while i < cells.len()
        invariant
            i <= cells.len(),
            cv == cells.deep_view(),
            cv.len() == cells.len(),
            header.deep_view() == header_spec(cv.take(i as int)),
            body.deep_view() == body_cells_spec(cv.take(i as int)),
        decreases cells.len() - i,
    {
        proof {
            assert(cv.take(i as int + 1).drop_last() =~= cv.take(i as int));
            assert(cv.take(i as int + 1).last() == cv[i as int]);
            assert(cv[i as int] == (cells@[i as int].0@, cells@[i as int].1@));
        }
        let tag = &cells[i].0;
        let text = &cells[i].1;
        if str_eq(tag.as_str(), "th") {
            proof {
                reveal_strlit("th");
                assert("th"@ =~= seq!['t', 'h']);
                assert(is_heading_cell(cv[i as int]));
            }
            let titled = to_title_case(text.as_str());
            let tc = chars_of(titled.as_str());
            let stripped = drop_char(&tc, ',');
            let cell = string_from_chars(&stripped);
            proof {
                assert(cell@ == heading_text(cv[i as int]));
            }
            header.push(cell);
            proof {
                assert(header.deep_view() =~= header_spec(cv.take(i as int + 1)));
            }
        } else {
            proof {
                reveal_strlit("th");
                assert("th"@ =~= seq!['t', 'h']);
                assert(!is_heading_cell(cv[i as int]));
            }
            let tc = chars_of(text.as_str());
            let stripped = drop_char(&tc, ',');
            let trimmed = trim_chars(&stripped);
            if trimmed.len() > 0 {
                proof {
                    assert(body_cell_kept(cv[i as int]));
                }
                let cell = string_from_chars(&stripped);
                body.push(cell);
                proof {
                    assert(body.deep_view() =~= body_cells_spec(cv.take(i as int + 1)));
                }
            } else {
                proof {
                    assert(!body_cell_kept(cv[i as int]));
                }
            }
        }
        i += 1;
    }
    proof {
        assert(cv.take(cells.len() as int) =~= cv);
    }
    let rows = chunk_body(body, header.len());
    proof {
        assert(rows.deep_view() == chunk_rows(body_cells_spec(cv), header.deep_view().len()));
        assert(header.deep_view().len() == header_spec(cv).len());
    }
    (header, rows)
}

/// Groups the kept body cells into rows of `n`.
fn chunk_body(body: Vec<String>, n: usize) -> (r: Vec<Vec<String>>)
    ensures
        r.deep_view() == chunk_rows(body.deep_view(), n as nat),
{
    let ghost bv = body.deep_view();
    let mut rows: Vec<Vec<String>> = Vec::new();
    if n == 0 {
        proof {
            assert(rows.deep_view() =~= chunk_rows(bv, 0));
        }
        return rows;
    }
    let mut current: Vec<String> = Vec::new();
    let mut i: usize = 0;
    proof {
        assert(bv.skip(0) =~= bv);
        assert(current.deep_view() =~= bv.subrange(0, 0));
        assert(rows.deep_view() + chunk_rows(bv, n as nat) =~= chunk_rows(bv, n as nat));
    }
    while i < body.len()
        invariant
            i <= body.len(),
            n >= 1,
            bv == body.deep_view(),
            bv.len() == body.len(),
            current.len() < n,
            current.len() <= i,
            current.deep_view() == bv.subrange(i - current.len(), i as int),
            chunk_rows(bv, n as nat) == rows.deep_view() + chunk_rows(
                bv.skip(i - current.len()),
                n as nat,
            ),
        decreases body.len() - i,
    {
        let ghost start = i - current.len();
        let cell = body[i].clone();
        proof {
            assert(cell@ == bv[i as int]);
            assert(bv.subrange(start, i as int + 1) =~= bv.subrange(start, i as int).push(
                bv[i as int],
            ));
        }
        current.push(cell);
        i += 1;
        proof {
            assert(current.deep_view() =~= bv.subrange(start, i as int));
        }
        if current.len() == n {
            let ghost rows_old = rows.deep_view();
            let ghost cur_v = current.deep_view();
            proof {
                let rest = bv.skip(start);
                assert(rest.len() == bv.len() - start);
                if rest.len() <= n as int {
                    assert(i == bv.len());
                    assert(chunk_rows(rest, n as nat) == seq![rest]);
                    assert(cur_v =~= rest);
                    assert(bv.skip(i as int).len() == 0);
                    assert(chunk_rows(bv.skip(i as int), n as nat)
                        =~= Seq::<Seq<Seq<char>>>::empty());
                    assert(rows_old.push(cur_v) + chunk_rows(bv.skip(i as int), n as nat)
                        =~= rows_old + chunk_rows(rest, n as nat));
                } else {
                    assert(chunk_rows(rest, n as nat) == seq![rest.take(n as int)] + chunk_rows(
                        rest.skip(n as int),
                        n as nat,
                    ));
                    assert(rest.take(n as int) =~= bv.subrange(start, i as int));
                    assert(rest.skip(n as int) =~= bv.skip(i as int));
                    assert(rows_old.push(cur_v) + chunk_rows(bv.skip(i as int), n as nat)
                        =~= rows_old + chunk_rows(rest, n as nat));
                }
            }
            rows.push(current);
            current = Vec::new();
            proof {
                assert(rows.deep_view() =~= rows_old.push(cur_v));
                assert(current.deep_view() =~= bv.subrange(i as int, i as int));
            }
        }
    }
    if current.len() > 0 {
        let ghost start = i - current.len();
        let ghost rows_old = rows.deep_view();
        let ghost cur_v = current.deep_view();
        proof {
            let rest = bv.skip(start);
            assert(rest.len() == current.len() < n);
            assert(chunk_rows(rest, n as nat) == seq![rest]);
            assert(cur_v =~= rest);
        }
        rows.push(current);
        proof {
            assert(rows.deep_view() =~= rows_old.push(cur_v));
            assert(rows_old.push(cur_v) =~= rows_old + seq![cur_v]);
        }
    } else {
        proof {
            assert(chunk_rows(bv.skip(i as int), n as nat) =~= Seq::<Seq<Seq<char>>>::empty());
            assert(rows.deep_view() + chunk_rows(bv.skip(i as int), n as nat) =~= rows.deep_view());
        }
    }
    rows
}

/// Whether two string vectors hold the same texts.
pub fn string_vecs_eq(a: &Vec<String>, b: &Vec<String>) -> (r: bool)
    ensures
        r == (a.deep_view() == b.deep_view()),
{
    if a.len() != b.len() {
        proof {
            assert(a.deep_view().len() != b.deep_view().len());
        }
        return false;
    }
    let mut i: usize = 0;
    while i < a.len()
        invariant
            i <= a.len(),
            a.len() == b.len(),
            forall|j: int| 0 <= j < i ==> a.deep_view()[j] == b.deep_view()[j],
        decreases a.len() - i,
    {
        if !str_eq(a[i].as_str(), b[i].as_str()) {
            proof {
                assert(a.deep_view()[i as int] != b.deep_view()[i as int]);
            }
            return false;
        }
        i += 1;
    }
    proof {
        assert(a.deep_view() =~= b.deep_view());
    }
    true
}

/// What merging the tables at the two indices yields: the first missing
/// table is reported; the two tables' header vectors must be element-wise
/// equal, and the merged grid then holds that header and the first
/// table's rows followed by the second's — so its row count is the sum of
/// both tables' row counts.
pub open spec fn merge_result(page: Seq<char>, i0: int, i1: int) -> Result<RawGridV, MergeError> {
    let ts = tables_of(page);
    if i0 >= ts.len() {
        Err(MergeError::TableNotFound { index: i0 as usize })
    } else if i1 >= ts.len() {
        Err(MergeError::TableNotFound { index: i1 as usize })
    } else if header_spec(ts[i0]) != header_spec(ts[i1]) {
        Err(MergeError::HeaderMismatch)
    } else {
        Ok(RawGridV { header: header_spec(ts[i0]), rows: table_rows(ts[i0]) + table_rows(ts[i1]) })
    }
}

/// The header-equality invariant: for tables present at both indices,
/// different header vectors always give a header mismatch, and equal
/// header vectors give a merged grid whose row count is the sum of both
/// tables' row counts.
pub proof fn lemma_merge_header_equality(page: Seq<char>, i0: int, i1: int)
    requires
        0 <= i0 < tables_of(page).len(),
        0 <= i1 < tables_of(page).len(),
    ensures
        header_spec(tables_of(page)[i0]) != header_spec(tables_of(page)[i1])
            ==> merge_result(page, i0, i1) == Err::<RawGridV, MergeError>(
            MergeError::HeaderMismatch,
        ),
        header_spec(tables_of(page)[i0]) == header_spec(tables_of(page)[i1]) ==> (merge_result(
            page,
            i0,
            i1,
        ) matches Ok(g) && g.rows.len() == table_rows(tables_of(page)[i0]).len() + table_rows(
            tables_of(page)[i1],
        ).len()),
{
}

/// Merges the two tables at the given zero-based indices into one grid.
///
/// The two tables must carry element-wise equal header vectors
/// (`HeaderMismatch` otherwise); the merged grid holds that header and
/// the first table's rows followed by the second's. A missing table or a
/// header mismatch is fatal for the device.
pub fn merge_tables(page: &str, indexes: (usize, usize)) -> (r: Result<RawGrid, MergeError>)
    ensures
        match r {
            Ok(g) => merge_result(page@, indexes.0 as int, indexes.1 as int) == Ok::<
                RawGridV,
                MergeError,
            >(g@) && g.wf(),
            Err(e) => merge_result(page@, indexes.0 as int, indexes.1 as int) == Err::<
                RawGridV,
                MergeError,
            >(e),
        },
{
    let tables = extract_tables(page);
    proof {
        assert(tables.deep_view().len() == tables@.len());
    }
    if indexes.0 >= tables.len() {
        return Err(MergeError::TableNotFound { index: indexes.0 });
    }
    if indexes.1 >= tables.len() {
        return Err(MergeError::TableNotFound { index: indexes.1 });
    }
    let ghost ts = tables_of(page@);
    proof {
        assert(ts[indexes.0 as int] == tables@[indexes.0 as int].deep_view());
        assert(ts[indexes.1 as int] == tables@[indexes.1 as int].deep_view());
    }
    let (h1, rows1) = parse_table(&tables[indexes.0]);
    let (h2, rows2) = parse_table(&tables[indexes.1]);
    if !string_vecs_eq(&h1, &h2) {
        return Err(MergeError::HeaderMismatch);
    }
    let mut rows = rows1;
    let mut tail = rows2;
    let ghost r1 = table_rows(ts[indexes.0 as int]);
    let ghost r2 = table_rows(ts[indexes.1 as int]);
    rows.append(&mut tail);
    proof {
        assert(rows.deep_view() =~= r1 + r2);
    }
    let grid = RawGrid { header: h1, rows };
    proof {
        lemma_chunk_rows_wf(
            body_cells_spec(ts[indexes.0 as int]),
            header_spec(ts[indexes.0 as int]).len(),
        );
        lemma_chunk_rows_wf(
            body_cells_spec(ts[indexes.1 as int]),
            header_spec(ts[indexes.1 as int]).len(),
        );
        assert(grid.wf());
    }
    Ok(grid)
}

} // verus!
