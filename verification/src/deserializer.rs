//! Normalization of raw spreadsheet grids into tables of string rows, and
//! validation of input file names.
//!
//! A grid arrives as typed cells. Each cell is rendered to its canonical
//! text: text cells keep their content, integers their decimal digits,
//! booleans become `true` or `false`, and error cells their error tag.
//! Floating-point and date-time cells arrive already rendered at the
//! boundary, since the library holds no floats; the canonical rendering
//! chosen for them is Rust's default `Display` for `f64`. Empty cells
//! contribute no token, and rows whose rendered form is entirely empty are
//! dropped.

use vstd::prelude::*;

verus! {

use vstd::string::StrSliceExecFns;
use crate::errors::{DpdError, DpdResult};
use crate::textops::{spec_i64_string, int_to_string, str_eq};

/// One typed cell of a raw grid, as a spreadsheet reader delivers it.
#[derive(Debug, Clone)]
pub enum Cell {
    Empty,
    Text(String),
    Int(i64),
    Float(String),
    DateTime(String),
    Bool(bool),
    Error(String),
}

/// The canonical text of one cell; an empty cell renders to nothing.
pub open spec fn spec_render_cell(c: Cell) -> Option<Seq<char>> {
    match c {
        Cell::Empty => None,
        Cell::Text(s) => Some(s@),
        Cell::Int(i) => Some(spec_i64_string(i as int)),
        Cell::Float(s) => Some(s@),
        Cell::DateTime(s) => Some(s@),
        Cell::Bool(b) => Some(if b { "true"@ } else { "false"@ }),
        Cell::Error(s) => Some(s@),
    }
}

/// The rendered cells of one row, in order, with empty cells left out.
pub open spec fn spec_render_row(r: Seq<Cell>) -> Seq<Seq<char>>
    decreases r.len(),
{
    if r.len() == 0 {
        Seq::empty()
    } else {
        let rest = spec_render_row(r.drop_last());
        match spec_render_cell(r.last()) {
            None => rest,
            Some(s) => rest.push(s),
        }
    }
}

/// The normalized table of a grid: each row rendered, empty rows dropped.
pub open spec fn spec_normalize(g: Seq<Vec<Cell>>) -> Seq<Seq<Seq<char>>>
    decreases g.len(),
{
    if g.len() == 0 {
        Seq::empty()
    } else {
        let rest = spec_normalize(g.drop_last());
        let row = spec_render_row(g.last()@);
        if row.len() == 0 {
            rest
        } else {
            rest.push(row)
        }
    }
}

/// Renders one cell to its canonical text.
fn render_cell(c: &Cell) -> (r: Option<String>)
    ensures
        match r {
            Some(s) => spec_render_cell(*c) == Some(s@),
            None => spec_render_cell(*c) is None,
        },
{
    match c {
        Cell::Empty => None,
        Cell::Text(s) => Some(s.clone()),
        Cell::Int(i) => Some(int_to_string(*i)),
        Cell::Float(s) => Some(s.clone()),
        Cell::DateTime(s) => Some(s.clone()),
        Cell::Bool(b) => Some(
            if *b {
                "true".to_owned()
            } else {
                "false".to_owned()
            },
        ),
        Cell::Error(s) => Some(s.clone()),
    }
}

/// Renders the cells of one row, leaving empty cells out.
fn render_row(row: &Vec<Cell>) -> (out: Vec<String>)
    ensures
        out.deep_view() == spec_render_row(row@),
{
    let mut out: Vec<String> = Vec::new();
    let mut i: usize = 0;
    while i < row.len()
        invariant
            0 <= i <= row@.len(),
            out.deep_view() =~= spec_render_row(row@.subrange(0, i as int)),
        decreases row@.len() - i,
    {
        let ghost prev = out.deep_view();
        let rendered = render_cell(&row[i]);
        proof {
            assert(row@.subrange(0, i + 1).drop_last() =~= row@.subrange(0, i as int));
            assert(row@.subrange(0, i + 1).last() == row@[i as int]);
        }
        match rendered {
            Some(s) => {
                let ghost sv = s@;
                out.push(s);
                proof {
                    assert(out.deep_view() =~= prev.push(sv));
                    assert(out.deep_view() =~= spec_render_row(row@.subrange(0, i + 1)));
                }
            },
            None => {
                proof {
                    assert(out.deep_view() =~= spec_render_row(row@.subrange(0, i + 1)));
                }
            },
        }
        i = i + 1;
    }
    proof {
        assert(row@.subrange(0, row@.len() as int) =~= row@);
    }
    out
}

/// Converts a raw typed grid into a table of canonical string rows: each
/// cell is rendered to text, empty cells contribute no token, and rows whose
/// rendered form is entirely empty are dropped. Short rows are kept as they
/// are; no padding is added.
pub fn deserialize_data_excel(grid: &Vec<Vec<Cell>>) -> (out: Vec<Vec<String>>)
    ensures
        out.deep_view() == spec_normalize(grid@),
{
    let mut out: Vec<Vec<String>> = Vec::new();
    let mut i: usize = 0;
    while i < grid.len()
        invariant
            0 <= i <= grid@.len(),
            out.deep_view() =~= spec_normalize(grid@.subrange(0, i as int)),
        decreases grid@.len() - i,
    {
        let ghost prev = out.deep_view();
        let row = render_row(&grid[i]);
        proof {
            assert(grid@.subrange(0, i + 1).drop_last() =~= grid@.subrange(0, i as int));
            assert(grid@.subrange(0, i + 1).last() == grid@[i as int]);
        }
        if row.len() > 0 {
            let ghost rv = row.deep_view();
            proof {
                assert(rv.len() > 0);
            }
            out.push(row);
            proof {
                assert(out.deep_view() =~= prev.push(rv));
                assert(out.deep_view() =~= spec_normalize(grid@.subrange(0, i + 1)));
            }
        } else {
            proof {
                assert(spec_render_row(grid@[i as int]@).len() == 0);
                assert(out.deep_view() =~= spec_normalize(grid@.subrange(0, i + 1)));
            }
        }
        i = i + 1;
    }
    proof {
        assert(grid@.subrange(0, grid@.len() as int) =~= grid@);
    }
    out
}

/// The characters after the last occurrence of `ch`; the whole sequence
/// when `ch` does not occur.
pub open spec fn after_last(s: Seq<char>, ch: char) -> Seq<char>
    decreases s.len(),
{
    if s.len() == 0 {
        s
    } else if s.last() == ch {
        Seq::empty()
    } else {
        after_last(s.drop_last(), ch).push(s.last())
    }
}

/// The file name of a path: what follows the last path separator.
pub open spec fn spec_file_name(s: Seq<char>) -> Seq<char> {
    after_last(s, '/')
}

/// Whether the file name has an extension: a dot somewhere after its first
/// character, as a name that merely starts with a dot has none.
pub open spec fn spec_has_extension(s: Seq<char>) -> bool {
    exists|i: int| 1 <= i < spec_file_name(s).len() && spec_file_name(s)[i] == '.'
}

/// The extension of the file name: what follows its last dot.
pub open spec fn spec_extension(s: Seq<char>) -> Seq<char> {
    after_last(spec_file_name(s), '.')
}

proof fn lemma_after_last_absent(s: Seq<char>, ch: char)
    requires
        forall|t: int| 0 <= t < s.len() ==> s[t] != ch,
    ensures
        after_last(s, ch) == s,
    decreases s.len(),
{
    if s.len() > 0 {
        lemma_after_last_absent(s.drop_last(), ch);
        assert(s.drop_last().push(s.last()) =~= s);
    }
}

proof fn lemma_after_last_at(s: Seq<char>, ch: char, k: int)
    requires
        0 <= k < s.len(),
        s[k] == ch,
        forall|t: int| k < t < s.len() ==> s[t] != ch,
    ensures
        after_last(s, ch) == s.subrange(k + 1, s.len() as int),
    decreases s.len(),
{
    if k == s.len() - 1 {
        assert(s.subrange(k + 1, s.len() as int) =~= Seq::<char>::empty());
    } else {
        lemma_after_last_at(s.drop_last(), ch, k);
        assert(s.drop_last().subrange(k + 1, s.len() - 1).push(s.last()) =~= s.subrange(
            k + 1,
            s.len() as int,
        ));
    }
}

/// The kind of table a file holds, judged by its extension.
#[derive(Debug)]
pub enum TypeTable {
    Excel(String),
    Csv(String),
}

/// Whether the extension is one of the spreadsheet extensions.
pub open spec fn spec_is_excel_ext(e: Seq<char>) -> bool {
    e == "xlsx"@ || e == "xlsm"@ || e == "xlsb"@ || e == "xls"@
}

/// Classifies a path by its file extension: the spreadsheet extensions and
/// `csv` are accepted, anything else is rejected with a validation error.
pub fn validate(f: &str) -> (r: DpdResult<TypeTable>)
    ensures
        match r {
            Ok(TypeTable::Excel(p)) => p@ == f@ && spec_has_extension(f@) && spec_is_excel_ext(
                spec_extension(f@),
            ),
            Ok(TypeTable::Csv(p)) => p@ == f@ && spec_has_extension(f@) && spec_extension(f@)
                == "csv"@,
            Err(e) => (e matches DpdError::Validation(_)) && (!spec_has_extension(f@) || (
            !spec_is_excel_ext(spec_extension(f@)) && spec_extension(f@) != "csv"@)),
        },
{
    let n = f.unicode_len();
    // the first character of the file name
    let mut start: usize = 0;
    let mut t: usize = n;
    while t > 0
        invariant_except_break
            start == 0,
        invariant
            0 <= t <= n,
            n == f@.len(),
            forall|u: int| t <= u < n ==> f@[u] != '/',
            start == 0 || (t > 0 && start == t && f@[start - 1] == '/'),
        ensures
            0 <= start <= n,
            n == f@.len(),
            start == 0 ==> forall|u: int| 0 <= u < n ==> f@[u] != '/',
            start > 0 ==> f@[start - 1] == '/' && (forall|u: int| start <= u < n ==> f@[u] != '/'),
        decreases t,
    {
        let c = f.get_char(t - 1);
        if c == '/' {
            start = t;
            break;
        }
        t = t - 1;
    }
    proof {
        if start == 0 {
            lemma_after_last_absent(f@, '/');
        } else {
            lemma_after_last_at(f@, '/', start - 1);
        }
        assert(spec_file_name(f@) == f@.subrange(start as int, n as int));
    }
    // the last dot after the file name's first character
    let mut dot: usize = n;
    let mut u: usize = n;
    while u - start > 1
        invariant_except_break
            dot == n,
        invariant
            start <= u <= n,
            n == f@.len(),
            forall|w: int| u <= w < n ==> f@[w] != '.',
            dot == n || (start + 1 <= dot < n && dot == u - 1 && f@[dot as int] == '.'),
        ensures
            n == f@.len(),
            dot == n ==> forall|w: int| start + 1 <= w < n ==> f@[w] != '.',
            dot < n ==> start + 1 <= dot && f@[dot as int] == '.' && (forall|w: int|
                dot < w < n ==> f@[w] != '.'),
        decreases u,
    {
        let c = f.get_char(u - 1);
        if c == '.' {
            dot = u - 1;
            break;
        }
        u = u - 1;
    }
    let ghost name = spec_file_name(f@);
    if dot == n {
        proof {
            assert forall|i: int| 1 <= i < name.len() implies name[i] != '.' by {
                assert(name[i] == f@[start + i]);
            }
            assert(!spec_has_extension(f@));
        }
        return Err(DpdError::Validation("Expecting an excel file".to_owned()));
    }
    let ext = f.substring_char(dot + 1, n);
    proof {
        assert(name[dot - start] == f@[dot as int]);
        assert(spec_has_extension(f@));
        assert forall|w: int| dot - start < w < name.len() implies name[w] != '.' by {
            assert(name[w] == f@[start + w]);
        }
        lemma_after_last_at(name, '.', dot - start);
        assert forall|w: int| 0 <= w < n - dot - 1 implies #[trigger] name.subrange(
            dot - start + 1,
            name.len() as int,
        )[w] == f@.subrange(dot + 1, n as int)[w] by {
            assert(name[dot - start + 1 + w] == f@[dot + 1 + w]);
        }
        assert(name.subrange(dot - start + 1, name.len() as int) =~= f@.subrange(
            dot + 1,
            n as int,
        ));
        assert(spec_extension(f@) == ext@);
    }
    if str_eq(ext, "xlsx") || str_eq(ext, "xlsm") || str_eq(ext, "xlsb") || str_eq(ext, "xls") {
        Ok(TypeTable::Excel(f.to_owned()))
    } else if str_eq(ext, "csv") {
        Ok(TypeTable::Csv(f.to_owned()))
    } else {
        Err(DpdError::Validation("Expecting an excel file".to_owned()))
    }
}

} // verus!
