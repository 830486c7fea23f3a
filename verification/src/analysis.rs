//! Analysis of extracted tables: splitting saved comma-separated table
//! text back into rows and columns for display.

use vstd::prelude::*;
use std::collections::HashMap;
use crate::text::{chars_of, matches_at, string_from_chars, sub_chars};

verus! {

/// Per-file analysis results.
pub struct FileAnalysis {}

/// Analysis results over a group of files.
pub struct GroupAnalysis {
    pub files_analysed: HashMap<String, FileAnalysis>,
    pub recurring_cols: Vec<String>,
    pub unique_cols: Vec<String>,
}

/// The segments of `s` between non-overlapping occurrences of `sep`,
/// scanning left to right from `i`, the current segment having started
/// at `start`.
pub open spec fn split_seq_from(s: Seq<char>, sep: Seq<char>, start: int, i: int) -> Seq<
    Seq<char>,
>
    decreases s.len() - i,
{
    if sep.len() == 0 || i < start || i > s.len() || start < 0 {
        Seq::empty()
    } else if i + sep.len() > s.len() {
        seq![s.subrange(start, s.len() as int)]
    } else if s.subrange(i, i + sep.len()) == sep {
        seq![s.subrange(start, i)] + split_seq_from(s, sep, i + sep.len(), i + sep.len())
    } else {
        split_seq_from(s, sep, start, i + 1)
    }
}

/// The segments of `s` between non-overlapping occurrences of `sep`.
pub open spec fn split_seq(s: Seq<char>, sep: Seq<char>) -> Seq<Seq<char>> {
    split_seq_from(s, sep, 0, 0)
}

/// Splits `cs` on `sep` into its segments.
fn split_text(cs: &Vec<char>, sep: &Vec<char>) -> (r: Vec<String>)
    requires
        sep.len() >= 1,
    ensures
        r.deep_view() == split_seq(cs@, sep@),
{
    let mut parts: Vec<String> = Vec::new();
    let mut start: usize = 0;
    let mut i: usize = 0;
    proof {
        assert(parts.deep_view() =~= Seq::<Seq<char>>::empty());
    }
    while cs.len() >= sep.len() && i <= cs.len() - sep.len()
        invariant
            sep@.len() >= 1,
            start <= i <= cs.len(),
            split_seq(cs@, sep@) == parts.deep_view() + split_seq_from(
                cs@,
                sep@,
                start as int,
                i as int,
            ),
        decreases cs.len() - i,
    {
        if matches_at(cs, sep, i) {
            let part = sub_chars(cs, start, i);
            let ghost parts_old = parts.deep_view();
            parts.push(string_from_chars(&part));
            proof {
                assert(parts.deep_view() =~= parts_old.push(cs@.subrange(start as int, i as int)));
                assert(parts.deep_view() + split_seq_from(
                    cs@,
                    sep@,
                    i + sep@.len(),
                    i + sep@.len(),
                ) =~= parts_old + split_seq_from(cs@, sep@, start as int, i as int));
            }
            start = i + sep.len();
            i = start;
        } else {
            i += 1;
        }
    }
    proof {
        assert(i + sep@.len() > cs@.len());
    }
    let last = sub_chars(cs, start, cs.len());
    let ghost parts_old = parts.deep_view();
    parts.push(string_from_chars(&last));
    proof {
        assert(split_seq_from(cs@, sep@, start as int, i as int) == seq![cs@.subrange(
            start as int,
            cs@.len() as int,
        )]);
        assert(parts.deep_view() =~= parts_old + split_seq_from(
            cs@,
            sep@,
            start as int,
            i as int,
        ));
    }
    parts
}

/// The rows of saved table text: lines split on `", "` into columns.
pub open spec fn analysis_rows_spec(s: Seq<char>) -> Seq<Seq<Seq<char>>> {
    split_seq(s, "\n"@).map_values(|row: Seq<char>| split_seq(row, ", "@))
}

/// Splits saved table text into its rows and columns.
pub fn analysis_rows(contents: &str) -> (r: Vec<Vec<String>>)
    ensures
        r.deep_view() == analysis_rows_spec(contents@),
{
    let cs = chars_of(contents);
    let nl = chars_of("\n");
    let comma = chars_of(", ");
    proof {
        reveal_strlit("\n");
        reveal_strlit(", ");
        assert(nl@.len() == 1);
        assert(comma@.len() == 2);
    }
    let rows = split_text(&cs, &nl);
    let ghost rv = rows.deep_view();
    let mut out: Vec<Vec<String>> = Vec::new();
    let mut i: usize = 0;
    while i < rows.len()
        invariant
            i <= rows.len(),
            rv == rows.deep_view(),
            rv.len() == rows.len(),
            comma@ == ", "@,
            comma@.len() == 2,
            out.deep_view().len() == i,
            forall|j: int|
                0 <= j < i ==> out.deep_view()[j] == split_seq(#[trigger] rv[j], ", "@),
        decreases rows.len() - i,
    {
        let row_cs = chars_of(rows[i].as_str());
        proof {
            assert(row_cs@ == rv[i as int]);
        }
        let cols = split_text(&row_cs, &comma);
        out.push(cols);
        i += 1;
    }
    proof {
        assert(out.deep_view() =~= analysis_rows_spec(contents@));
    }
    out
}

} // verus!
