//! The comparison engine: change records, the change resolver that turns an
//! edit script into records, the aggregation of records by side, and the
//! table state that a comparison works on.

use vstd::prelude::*;

verus! {

use vstd::seq_lib::group_seq_properties;
use crate::errors::{DpdError, DpdResult};
use crate::deserializer::{Cell, spec_normalize, deserialize_data_excel};
use crate::sorting::{SortVec, spec_sort, all_rows_have, width_pred};
use crate::textops::{str_eq, is_numeric, spec_is_numeric};
use crate::diffops::{
    Algorithm, DiffOp, ops_tile, ops_tile_old_from, ops_tile_new_from, ops_all_equal,
    op_old_start, op_old_len, op_new_start, op_new_len, lemma_tile_old_bounds,
    lemma_tile_new_bounds, transpose_op, transpose_ops, capture_diff_rows, script_of,
    old_script_rows, new_script_rows, lemma_script_reproduces_inputs,
};

/// The role a row played in the alignment.
#[derive(Debug, Clone, Copy, PartialEq, Eq, Structural)]
pub enum ChangeTag {
    Equal,
    Delete,
    Insert,
}

/// One unmatched row found by a comparison: the side it came from, its
/// position in that side's table, the file and sheet it belongs to, and its
/// cells.
#[derive(Debug, Clone)]
pub struct CmpRslt {
    pub issrc: bool,
    pub tag: ChangeTag,
    pub index: usize,
    pub file: String,
    pub sheet: String,
    pub data: Vec<String>,
}

/// The mathematical shadow of a change record.
pub struct CmpView {
    pub issrc: bool,
    pub tag: ChangeTag,
    pub index: int,
    pub file: Seq<char>,
    pub sheet: Seq<char>,
    pub data: Seq<Seq<char>>,
}

impl View for CmpRslt {
    type V = CmpView;

    open spec fn view(&self) -> CmpView {
        CmpView {
            issrc: self.issrc,
            tag: self.tag,
            index: self.index as int,
            file: self.file@,
            sheet: self.sheet@,
            data: self.data.deep_view(),
        }
    }
}

impl DeepView for CmpRslt {
    type V = CmpView;

    open spec fn deep_view(&self) -> CmpView {
        self.view()
    }
}

impl Default for CmpRslt {
    /// An empty record attributed to no side.
    fn default() -> (r: Self)
        ensures
            !r@.issrc,
            r@.tag == ChangeTag::Delete,
            r@.index == 0,
            r@.file == Seq::<char>::empty(),
            r@.sheet == Seq::<char>::empty(),
            r@.data == Seq::<Seq<char>>::empty(),
    {
        let r = CmpRslt {
            issrc: false,
            tag: ChangeTag::Delete,
            index: 0,
            file: String::new(),
            sheet: String::new(),
            data: Vec::new(),
        };
        proof {
            assert(r@.data =~= Seq::<Seq<char>>::empty());
        }
        r
    }
}

/// The predicate holding of the records that came from the source table.
pub open spec fn src_pred() -> spec_fn(CmpView) -> bool {
    |rec: CmpView| rec.issrc
}

/// The predicate holding of the records that came from the target table.
pub open spec fn tgt_pred() -> spec_fn(CmpView) -> bool {
    |rec: CmpView| !rec.issrc
}

/// The records removed from the source, in order.
pub open spec fn removed_of(s: Seq<CmpView>) -> Seq<CmpView> {
    s.filter(src_pred())
}

/// The records added in the target, in order.
pub open spec fn added_of(s: Seq<CmpView>) -> Seq<CmpView> {
    s.filter(tgt_pred())
}

/// The outcome of one comparison: its change records in script order.
#[derive(Debug)]
pub struct Comparison(pub Vec<CmpRslt>);

impl Default for Comparison {
    /// A comparison with no change records.
    fn default() -> (r: Self)
        ensures
            r.0.deep_view() == Seq::<CmpView>::empty(),
    {
        let r = Comparison(Vec::new());
        proof {
            assert(r.0.deep_view() =~= Seq::<CmpView>::empty());
        }
        r
    }
}

impl Comparison {
    /// Splits the records into the rows removed from the source and the
    /// rows added in the target, each group keeping its order. A pure
    /// partition: nothing is reordered, dropped or deduplicated.
    pub fn get_data(self) -> (r: (Vec<CmpRslt>, Vec<CmpRslt>))
        ensures
            r.0.deep_view() == removed_of(self.0.deep_view()),
            r.1.deep_view() == added_of(self.0.deep_view()),
    {
        broadcast use group_seq_properties;

        let ghost orig = self.0.deep_view();
        let mut items = self.0;
        let mut src: Vec<CmpRslt> = Vec::new();
        let mut tgt: Vec<CmpRslt> = Vec::new();
        let ghost taken: int = 0;
        while items.len() > 0
            invariant
                0 <= taken <= orig.len(),
                items.deep_view() =~= orig.skip(taken),
                src.deep_view() =~= removed_of(orig.subrange(0, taken)),
                tgt.deep_view() =~= added_of(orig.subrange(0, taken)),
            decreases items@.len(),
        {
            let ghost prev_src = src.deep_view();
            let ghost prev_tgt = tgt.deep_view();
            let item = items.remove(0);
            proof {
                assert(items.deep_view() =~= orig.skip(taken).remove(0));
                assert(item.deep_view() == orig.skip(taken)[0]);
                assert(item.deep_view() == orig[taken]);
            }
            let ghost iv = item.deep_view();
            if item.issrc {
                src.push(item);
                proof {
                    assert(src.deep_view() =~= prev_src.push(iv));
                }
            } else {
                tgt.push(item);
                proof {
                    assert(tgt.deep_view() =~= prev_tgt.push(iv));
                }
            }
            proof {
                reveal_with_fuel(Seq::filter, 2);
                let s1 = orig.subrange(0, taken + 1);
                assert(s1.drop_last() =~= orig.subrange(0, taken));
                assert(s1.last() == orig[taken]);
                if src_pred()(orig[taken]) {
                    assert(s1.filter(src_pred()) == s1.drop_last().filter(src_pred()).push(
                        s1.last(),
                    ));
                    assert(s1.filter(tgt_pred()) == s1.drop_last().filter(tgt_pred()));
                } else {
                    assert(s1.filter(src_pred()) == s1.drop_last().filter(src_pred()));
                    assert(s1.filter(tgt_pred()) == s1.drop_last().filter(tgt_pred()).push(
                        s1.last(),
                    ));
                }
                taken = taken + 1;
                assert(items.deep_view() =~= orig.skip(taken));
                assert(src.deep_view() =~= removed_of(orig.subrange(0, taken)));
                assert(tgt.deep_view() =~= added_of(orig.subrange(0, taken)));
            }
        }
        proof {
            assert(orig.subrange(0, orig.len() as int) =~= orig);
            assert(items.deep_view().len() == 0);
        }
        (src, tgt)
    }
}

/// The declared dimensions of a table: its row count and column count.
#[derive(Debug, Clone, Copy, PartialEq, Eq, Structural)]
pub struct SizeTable {
    pub h: usize,
    pub w: usize,
}

impl Default for SizeTable {
    /// An empty size.
    fn default() -> (r: Self)
        ensures
            r.h == 0 && r.w == 0,
    {
        SizeTable { h: 0, w: 0 }
    }
}

impl From<(usize, usize)> for SizeTable {
    fn from(d: (usize, usize)) -> (r: Self)
        ensures
            r.h == d.0 && r.w == d.1,
    {
        SizeTable { h: d.0, w: d.1 }
    }
}

impl vstd::std_specs::convert::FromSpecImpl<(usize, usize)> for SizeTable {
    open spec fn obeys_from_spec() -> bool {
        true
    }

    open spec fn from_spec(d: (usize, usize)) -> Self {
        SizeTable { h: d.0, w: d.1 }
    }
}

/// One side of a comparison: the file it came from, its sheet names, the
/// normalized rows of the selected sheet, the declared size of that sheet,
/// and two presentation flags.
#[derive(Debug)]
pub struct CmpData {
    pub file: String,
    pub sheets: Vec<String>,
    pub selected_data: Vec<Vec<String>>,
    pub size: SizeTable,
    pub has_header: bool,
    pub is_filtered: bool,
}

impl Default for CmpData {
    /// A side with nothing opened.
    fn default() -> (r: Self)
        ensures
            r.file@ == Seq::<char>::empty(),
            r.sheets.deep_view() == Seq::<Seq<char>>::empty(),
            r.selected_data.deep_view() == Seq::<Seq<Seq<char>>>::empty(),
            r.size.h == 0 && r.size.w == 0,
            !r.has_header,
            !r.is_filtered,
    {
        let r = CmpData {
            file: String::new(),
            sheets: Vec::new(),
            selected_data: Vec::new(),
            size: SizeTable { h: 0, w: 0 },
            has_header: false,
            is_filtered: false,
        };
        proof {
            assert(r.sheets.deep_view() =~= Seq::<Seq<char>>::empty());
            assert(r.selected_data.deep_view() =~= Seq::<Seq<Seq<char>>>::empty());
        }
        r
    }
}

/// Whether two sides agree on everything but the held rows and the
/// filtered flag.
pub open spec fn same_meta(a: CmpData, b: CmpData) -> bool {
    a.file == b.file && a.sheets == b.sheets && a.has_header == b.has_header
}

/// Whether the sheet list holds this name.
pub open spec fn spec_has_sheet(sheets: Seq<String>, sheet: Seq<char>) -> bool {
    exists|i: int| 0 <= i < sheets.len() && (#[trigger] sheets[i])@ == sheet
}

impl CmpData {
    /// Whether the workbook holds a sheet of this name.
    pub fn has_sheet(&self, sheet: &str) -> (b: bool)
        ensures
            b == spec_has_sheet(self.sheets@, sheet@),
    {
        let mut i: usize = 0;
        while i < self.sheets.len()
            invariant
                0 <= i <= self.sheets@.len(),
                forall|t: int| 0 <= t < i ==> (#[trigger] self.sheets@[t])@ != sheet@,
            decreases self.sheets@.len() - i,
        {
            if str_eq(self.sheets[i].as_str(), sheet) {
                return true;
            }
            i = i + 1;
        }
        false
    }

    /// Selects a sheet: validates its name against the workbook's sheet
    /// list, then replaces the held rows with the grid's normalized rows
    /// and records the grid's declared size. A name the workbook lacks is
    /// a validation error, and nothing changes.
    pub fn set_selected_data(
        &mut self,
        sheet: &str,
        grid: &Vec<Vec<Cell>>,
        size: SizeTable,
    ) -> (r: DpdResult<()>)
        ensures
            match r {
                Ok(()) => spec_has_sheet(old(self).sheets@, sheet@) && same_meta(
                    *final(self),
                    *old(self),
                ) && final(self).selected_data.deep_view() == spec_normalize(grid@) && final(self).size == size && final(self).is_filtered == old(self).is_filtered,
                Err(e) => !spec_has_sheet(old(self).sheets@, sheet@) && (
                e matches DpdError::Validation(_)) && *final(self) == *old(self),
            },
    {
        if !self.has_sheet(sheet) {
            let mut m = "no sheet `".to_owned();
            m.append(sheet);
            m.append("` in file `");
            m.append(self.file.as_str());
            m.append("`");
            return Err(DpdError::Validation(m));
        }
        self.selected_data = deserialize_data_excel(grid);
        self.size = size;
        Ok(())
    }

    /// Keeps only the rows of one width: the given one, or the table's
    /// declared column count when none is given. Marks the table filtered.
    #[inline]
    pub fn filter(&mut self, row: Option<usize>) -> (r: DpdResult<()>)
        ensures
            r is Ok,
            same_meta(*final(self), *old(self)),
            final(self).size == old(self).size,
            final(self).is_filtered,
            ({
                let col = match row {
                    Some(w) => w as int,
                    None => old(self).size.w as int,
                };
                final(self).selected_data@ == old(self).selected_data@.filter(width_pred(col))
            }),
    {
        self.is_filtered = true;
        let w = match row {
            Some(r) => r,
            None => self.size.w,
        };
        self.selected_data.filter_col(w)
    }

    /// Sorts the rows by a key column: the given one, or the table's
    /// declared column count when none is given. The result is the stable
    /// insertion sort of the rows by their case-folded key; a column some
    /// row does not reach is a validation error, and nothing changes.
    #[inline]
    pub fn sort(&mut self, row: Option<usize>) -> (r: DpdResult<()>)
        ensures
            ({
                let col = match row {
                    Some(w) => w as int,
                    None => old(self).size.w as int,
                };
                match r {
                    Ok(()) => all_rows_have(old(self).selected_data@, col) && same_meta(
                        *final(self),
                        *old(self),
                    ) && final(self).size == old(self).size && final(self).is_filtered == old(self).is_filtered && final(self).selected_data@ == spec_sort(
                        old(self).selected_data@,
                        col,
                    ),
                    Err(e) => !all_rows_have(old(self).selected_data@, col) && (
                    e matches DpdError::Validation(_)) && *final(self) == *old(self),
                }
            }),
    {
        let col = match row {
            Some(r) => r,
            None => self.size.w,
        };
        self.selected_data.sort_by_col(col)
    }

    /// Closes the side: forgets the file, its sheets, the held rows, the
    /// size, and resets both flags.
    #[inline]
    pub fn close(&mut self)
        ensures
            final(self).file@ == Seq::<char>::empty(),
            final(self).sheets.deep_view() == Seq::<Seq<char>>::empty(),
            final(self).selected_data.deep_view() == Seq::<Seq<Seq<char>>>::empty(),
            final(self).size.h == 0 && final(self).size.w == 0,
            !final(self).has_header,
            !final(self).is_filtered,
    {
        self.file = String::new();
        self.sheets = Vec::new();
        self.selected_data = Vec::new();
        self.size = SizeTable { h: 0, w: 0 };
        self.has_header = false;
        self.is_filtered = false;
        proof {
            assert(self.sheets.deep_view() =~= Seq::<Seq<char>>::empty());
            assert(self.selected_data.deep_view() =~= Seq::<Seq<Seq<char>>>::empty());
        }
    }
}

/// The comparison payload of one row: its cells after the key column and,
/// when numbering is ignored, also after a leading purely numeric token.
pub open spec fn spec_payload(row: Seq<Seq<char>>, ignore_num: bool) -> Seq<Seq<char>> {
    let pay = if row.len() >= 1 {
        row.skip(1)
    } else {
        Seq::empty()
    };
    if ignore_num && pay.len() > 0 && spec_is_numeric(pay[0]) {
        pay.skip(1)
    } else {
        pay
    }
}

/// The comparison payloads of a whole table, row by row.
pub open spec fn spec_payloads(t: Seq<Seq<Seq<char>>>, ignore_num: bool) -> Seq<Seq<Seq<char>>> {
    Seq::new(t.len(), |i: int| spec_payload(t[i], ignore_num))
}

/// Extracts the comparison payload of one row.
fn payload_row(row: &Vec<String>, ignore_num: bool) -> (p: Vec<String>)
    ensures
        p.deep_view() == spec_payload(row.deep_view(), ignore_num),
{
    let ghost rv = row.deep_view();
    let mut start: usize = if row.len() >= 1 {
        1
    } else {
        0
    };
    if ignore_num && row.len() >= 2 && is_numeric(row[1].as_str()) {
        start = 2;
    }
    proof {
        assert(rv.len() == row@.len());
        assert forall|t: int| 0 <= t < rv.len() implies #[trigger] rv[t] == row@[t]@ by {}
        assert(spec_payload(rv, ignore_num) =~= rv.skip(start as int));
    }
    let mut p: Vec<String> = Vec::new();
    let mut i: usize = start;
    while i < row.len()
        invariant
            start <= i <= row@.len() || (row@.len() < start && i == start),
            rv == row.deep_view(),
            rv.len() == row@.len(),
            p.deep_view() =~= rv.subrange(start as int, i as int) || (row@.len() < start
                && p.deep_view().len() == 0),
        decreases row@.len() - i,
    {
        let ghost prev = p.deep_view();
        let cell = row[i].clone();
        let ghost cv = cell@;
        p.push(cell);
        proof {
            assert(p.deep_view() =~= prev.push(cv));
            assert(cv == rv[i as int]);
            assert(p.deep_view() =~= rv.subrange(start as int, i + 1));
        }
        i = i + 1;
    }
    proof {
        if start <= rv.len() {
            assert(p.deep_view() =~= rv.subrange(start as int, rv.len() as int));
            assert(rv.subrange(start as int, rv.len() as int) =~= rv.skip(start as int));
        } else {
            assert(rv.len() == 0);
            assert(p.deep_view() =~= rv.skip(start as int));
        }
    }
    p
}

/// Extracts the comparison payloads of a whole table.
fn payload_rows(t: &Vec<Vec<String>>, ignore_num: bool) -> (p: Vec<Vec<String>>)
    ensures
        p.deep_view() == spec_payloads(t.deep_view(), ignore_num),
        p@.len() == t@.len(),
{
    let ghost tv = t.deep_view();
    let mut p: Vec<Vec<String>> = Vec::new();
    let mut i: usize = 0;
    while i < t.len()
        invariant
            0 <= i <= t@.len(),
            tv == t.deep_view(),
            tv.len() == t@.len(),
            p.deep_view() =~= spec_payloads(tv, ignore_num).subrange(0, i as int),
            p@.len() == i,
        decreases t@.len() - i,
    {
        let ghost prev = p.deep_view();
        let row = payload_row(&t[i], ignore_num);
        let ghost rv = row.deep_view();
        p.push(row);
        proof {
            assert(tv[i as int] == t@[i as int].deep_view());
            assert(rv == spec_payload(tv[i as int], ignore_num));
            assert(p.deep_view() =~= prev.push(rv));
            assert(p.deep_view() =~= spec_payloads(tv, ignore_num).subrange(0, i + 1));
        }
        i = i + 1;
    }
    proof {
        assert(spec_payloads(tv, ignore_num).subrange(
            0,
            spec_payloads(tv, ignore_num).len() as int,
        ) =~= spec_payloads(tv, ignore_num));
    }
    p
}

/// The records of one deleted span: one per row, attributed to the source.
pub open spec fn delete_records(
    start: int,
    len: nat,
    a: Seq<Seq<Seq<char>>>,
    sheet: Seq<char>,
    file: Seq<char>,
) -> Seq<CmpView> {
    Seq::new(
        len,
        |t: int|
            CmpView {
                issrc: true,
                tag: ChangeTag::Delete,
                index: start + t,
                file: file,
                sheet: sheet,
                data: a[start + t],
            },
    )
}

/// The records of one inserted span: one per row, attributed to the target.
pub open spec fn insert_records(
    start: int,
    len: nat,
    b: Seq<Seq<Seq<char>>>,
    sheet: Seq<char>,
    file: Seq<char>,
) -> Seq<CmpView> {
    Seq::new(
        len,
        |t: int|
            CmpView {
                issrc: false,
                tag: ChangeTag::Insert,
                index: start + t,
                file: file,
                sheet: sheet,
                data: b[start + t],
            },
    )
}

/// The change records of one opcode: none for an equal span, one per
/// deleted or inserted row, and for a replacement first the deleted then
/// the inserted rows.
pub open spec fn op_records(
    op: DiffOp,
    a: Seq<Seq<Seq<char>>>,
    b: Seq<Seq<Seq<char>>>,
    sheet: Seq<char>,
    src_file: Seq<char>,
    target_file: Seq<char>,
) -> Seq<CmpView> {
    match op {
        DiffOp::Equal { .. } => Seq::empty(),
        DiffOp::Delete { old_index, old_len, .. } => delete_records(
            old_index as int,
            old_len as nat,
            a,
            sheet,
            src_file,
        ),
        DiffOp::Insert { new_index, new_len, .. } => insert_records(
            new_index as int,
            new_len as nat,
            b,
            sheet,
            target_file,
        ),
        DiffOp::Replace { old_index, old_len, new_index, new_len } => delete_records(
            old_index as int,
            old_len as nat,
            a,
            sheet,
            src_file,
        ) + insert_records(new_index as int, new_len as nat, b, sheet, target_file),
    }
}

/// The change records of a whole script, in script order: equal spans are
/// discarded, every other row becomes one record on the side it came from.
pub open spec fn spec_resolve(
    ops: Seq<DiffOp>,
    a: Seq<Seq<Seq<char>>>,
    b: Seq<Seq<Seq<char>>>,
    sheet: Seq<char>,
    src_file: Seq<char>,
    target_file: Seq<char>,
) -> Seq<CmpView>
    decreases ops.len(),
{
    if ops.len() == 0 {
        Seq::empty()
    } else {
        spec_resolve(ops.drop_last(), a, b, sheet, src_file, target_file) + op_records(
            ops.last(),
            a,
            b,
            sheet,
            src_file,
            target_file,
        )
    }
}

/// What one record promises: its sheet, and on each side the right tag and
/// file, an index inside that side's table, and that side's row as data.
pub open spec fn rec_provenance(
    rec: CmpView,
    a: Seq<Seq<Seq<char>>>,
    b: Seq<Seq<Seq<char>>>,
    sheet: Seq<char>,
    src_file: Seq<char>,
    target_file: Seq<char>,
) -> bool {
    rec.sheet == sheet && if rec.issrc {
        rec.tag == ChangeTag::Delete && 0 <= rec.index < a.len() && rec.data == a[rec.index]
            && rec.file == src_file
    } else {
        rec.tag == ChangeTag::Insert && 0 <= rec.index < b.len() && rec.data == b[rec.index]
            && rec.file == target_file
    }
}

/// Copies one row of cells.
fn clone_row(r: &Vec<String>) -> (c: Vec<String>)
    ensures
        c.deep_view() == r.deep_view(),
{
    let mut c: Vec<String> = Vec::new();
    let mut i: usize = 0;
    while i < r.len()
        invariant
            0 <= i <= r@.len(),
            c.deep_view() =~= r.deep_view().subrange(0, i as int),
        decreases r@.len() - i,
    {
        let ghost prev = c.deep_view();
        let cell = r[i].clone();
        let ghost cv = cell@;
        c.push(cell);
        proof {
            assert(c.deep_view() =~= prev.push(cv));
            assert(cv == r.deep_view()[i as int]);
            assert(c.deep_view() =~= r.deep_view().subrange(0, i + 1));
        }
        i = i + 1;
    }
    proof {
        assert(r.deep_view().subrange(0, r.deep_view().len() as int) =~= r.deep_view());
    }
    c
}

/// Walks an edit script and emits one change record per deleted or inserted
/// row: equal spans carry no signal and are discarded, a deleted row is
/// attributed to the source at its old index, an inserted row to the target
/// at its new index.
pub fn resolve_ops(
    ops: &Vec<DiffOp>,
    old: &Vec<Vec<String>>,
    new: &Vec<Vec<String>>,
    sheet: &str,
    src_file: &str,
    target_file: &str,
) -> (out: Vec<CmpRslt>)
    requires
        ops_tile(ops@, old@.len() as int, new@.len() as int),
    ensures
        out.deep_view() == spec_resolve(
            ops@,
            old.deep_view(),
            new.deep_view(),
            sheet@,
            src_file@,
            target_file@,
        ),
{
    let ghost a = old.deep_view();
    let ghost b = new.deep_view();
    let ghost n = old@.len() as int;
    let ghost m = new@.len() as int;
    let mut out: Vec<CmpRslt> = Vec::new();
    let mut k: usize = 0;
    let ghost ci: int = 0;
    let ghost cj: int = 0;
    proof {
        assert(a.len() == n) by {
            assert(forall|t: int| 0 <= t < old@.len() ==> #[trigger] a[t] == old@[t].deep_view());
        }
        assert(b.len() == m);
        assert(ops@.skip(0) =~= ops@);
    }
    while k < ops.len()
        invariant
            0 <= k <= ops@.len(),
            a == old.deep_view(),
            b == new.deep_view(),
            n == old@.len() as int,
            m == new@.len() as int,
            a.len() == n,
            b.len() == m,
            ops_tile_old_from(ops@.skip(k as int), ci, n),
            ops_tile_new_from(ops@.skip(k as int), cj, m),
            0 <= ci,
            0 <= cj,
            out.deep_view() =~= spec_resolve(
                ops@.subrange(0, k as int),
                a,
                b,
                sheet@,
                src_file@,
                target_file@,
            ),
        decreases ops@.len() - k,
    {
        let op = ops[k];
        let ghost base = out.deep_view();
        proof {
            assert(ops@.skip(k as int)[0] == ops@[k as int]);
            assert(op_old_len(op) > 0 ==> op_old_start(op) == ci);
            assert(op_new_len(op) > 0 ==> op_new_start(op) == cj);
            lemma_tile_old_bounds(ops@.skip(k as int), ci, n);
            lemma_tile_new_bounds(ops@.skip(k as int), cj, m);
            assert(ci + op_old_len(op) <= n);
            assert(cj + op_new_len(op) <= m);
        }
        match op {
            DiffOp::Equal { .. } => {
                proof {
                    assert(op_records(op, a, b, sheet@, src_file@, target_file@)
                        =~= Seq::<CmpView>::empty());
                    assert(base + Seq::<CmpView>::empty() =~= base);
                }
            },
            DiffOp::Delete { old_index, old_len, new_index } => {
                let nn = old.len();
                let mut t: usize = 0;
                while t < old_len
                    invariant
                        0 <= t <= old_len,
                        a == old.deep_view(),
                        a.len() == old@.len(),
                        nn == old@.len(),
                        old_len > 0 ==> old_index + old_len <= nn,
                        out.deep_view() =~= base + delete_records(
                            old_index as int,
                            t as nat,
                            a,
                            sheet@,
                            src_file@,
                        ),
                    decreases old_len - t,
                {
                    let ghost prev = out.deep_view();
                    let rec = CmpRslt {
                        issrc: true,
                        tag: ChangeTag::Delete,
                        index: old_index + t,
                        file: src_file.to_owned(),
                        sheet: sheet.to_owned(),
                        data: clone_row(&old[old_index + t]),
                    };
                    let ghost rv = rec.deep_view();
                    out.push(rec);
                    proof {
                        assert(a[old_index + t] == old@[old_index + t].deep_view());
                        assert(out.deep_view() =~= prev.push(rv));
                        assert(out.deep_view() =~= base + delete_records(
                            old_index as int,
                            (t + 1) as nat,
                            a,
                            sheet@,
                            src_file@,
                        ));
                    }
                    t = t + 1;
                }
            },
            DiffOp::Insert { old_index, new_index, new_len } => {
                let mm = new.len();
                let mut t: usize = 0;
                while t < new_len
                    invariant
                        0 <= t <= new_len,
                        b == new.deep_view(),
                        b.len() == new@.len(),
                        mm == new@.len(),
                        new_len > 0 ==> new_index + new_len <= mm,
                        out.deep_view() =~= base + insert_records(
                            new_index as int,
                            t as nat,
                            b,
                            sheet@,
                            target_file@,
                        ),
                    decreases new_len - t,
                {
                    let ghost prev = out.deep_view();
                    let rec = CmpRslt {
                        issrc: false,
                        tag: ChangeTag::Insert,
                        index: new_index + t,
                        file: target_file.to_owned(),
                        sheet: sheet.to_owned(),
                        data: clone_row(&new[new_index + t]),
                    };
                    let ghost rv = rec.deep_view();
                    out.push(rec);
                    proof {
                        assert(b[new_index + t] == new@[new_index + t].deep_view());
                        assert(out.deep_view() =~= prev.push(rv));
                        assert(out.deep_view() =~= base + insert_records(
                            new_index as int,
                            (t + 1) as nat,
                            b,
                            sheet@,
                            target_file@,
                        ));
                    }
                    t = t + 1;
                }
            },
            DiffOp::Replace { old_index, old_len, new_index, new_len } => {
                let nn = old.len();
                let mut t: usize = 0;
                while t < old_len
                    invariant
                        0 <= t <= old_len,
                        a == old.deep_view(),
                        a.len() == old@.len(),
                        nn == old@.len(),
                        old_len > 0 ==> old_index + old_len <= nn,
                        out.deep_view() =~= base + delete_records(
                            old_index as int,
                            t as nat,
                            a,
                            sheet@,
                            src_file@,
                        ),
                    decreases old_len - t,
                {
                    let ghost prev = out.deep_view();
                    let rec = CmpRslt {
                        issrc: true,
                        tag: ChangeTag::Delete,
                        index: old_index + t,
                        file: src_file.to_owned(),
                        sheet: sheet.to_owned(),
                        data: clone_row(&old[old_index + t]),
                    };
                    let ghost rv = rec.deep_view();
                    out.push(rec);
                    proof {
                        assert(a[old_index + t] == old@[old_index + t].deep_view());
                        assert(out.deep_view() =~= prev.push(rv));
                        assert(out.deep_view() =~= base + delete_records(
                            old_index as int,
                            (t + 1) as nat,
                            a,
                            sheet@,
                            src_file@,
                        ));
                    }
                    t = t + 1;
                }
                let ghost base2 = out.deep_view();
                let mm = new.len();
                let mut u: usize = 0;
                while u < new_len
                    invariant
                        0 <= u <= new_len,
                        b == new.deep_view(),
                        b.len() == new@.len(),
                        mm == new@.len(),
                        new_len > 0 ==> new_index + new_len <= mm,
                        out.deep_view() =~= base2 + insert_records(
                            new_index as int,
                            u as nat,
                            b,
                            sheet@,
                            target_file@,
                        ),
                    decreases new_len - u,
                {
                    let ghost prev = out.deep_view();
                    let rec = CmpRslt {
                        issrc: false,
                        tag: ChangeTag::Insert,
                        index: new_index + u,
                        file: target_file.to_owned(),
                        sheet: sheet.to_owned(),
                        data: clone_row(&new[new_index + u]),
                    };
                    let ghost rv = rec.deep_view();
                    out.push(rec);
                    proof {
                        assert(b[new_index + u] == new@[new_index + u].deep_view());
                        assert(out.deep_view() =~= prev.push(rv));
                        assert(out.deep_view() =~= base2 + insert_records(
                            new_index as int,
                            (u + 1) as nat,
                            b,
                            sheet@,
                            target_file@,
                        ));
                    }
                    u = u + 1;
                }
                proof {
                    assert(out.deep_view() =~= base + op_records(
                        op,
                        a,
                        b,
                        sheet@,
                        src_file@,
                        target_file@,
                    ));
                }
            },
        }
        proof {
            assert(out.deep_view() =~= base + op_records(op, a, b, sheet@, src_file@, target_file@));
            let s1 = ops@.subrange(0, k + 1);
            assert(s1.drop_last() =~= ops@.subrange(0, k as int));
            assert(s1.last() == ops@[k as int]);
            assert(out.deep_view() =~= spec_resolve(s1, a, b, sheet@, src_file@, target_file@));
            assert(ops@.skip(k as int).skip(1) =~= ops@.skip(k + 1));
            ci = ci + op_old_len(op);
            cj = cj + op_new_len(op);
        }
        k = k + 1;
    }
    proof {
        assert(ops@.subrange(0, ops@.len() as int) =~= ops@);
    }
    out
}

/// Whether an opcode's consuming spans lie within the two sequences; an
/// unconstrained cross-side index of a span of length zero claims nothing.
pub open spec fn op_in_bounds(op: DiffOp, n: int, m: int) -> bool {
    (op_old_len(op) > 0 ==> 0 <= op_old_start(op) && op_old_start(op) + op_old_len(op) <= n)
        && (op_new_len(op) > 0 ==> 0 <= op_new_start(op) && op_new_start(op) + op_new_len(op)
        <= m)
}

/// Every opcode of a tiling script lies within the two sequences.
proof fn lemma_tile_op_bounds(ops: Seq<DiffOp>, i: int, j: int, n: int, m: int)
    requires
        ops_tile_old_from(ops, i, n),
        ops_tile_new_from(ops, j, m),
        0 <= i,
        0 <= j,
    ensures
        forall|k: int| 0 <= k < ops.len() ==> op_in_bounds(#[trigger] ops[k], n, m),
    decreases ops.len(),
{
    if ops.len() > 0 {
        lemma_tile_old_bounds(ops, i, n);
        lemma_tile_new_bounds(ops, j, m);
        assert(op_in_bounds(ops[0], n, m));
        lemma_tile_op_bounds(ops.skip(1), i + op_old_len(ops[0]), j + op_new_len(ops[0]), n, m);
        assert forall|k: int| 0 <= k < ops.len() implies op_in_bounds(#[trigger] ops[k], n, m) by {
            if k > 0 {
                assert(ops[k] == ops.skip(1)[k - 1]);
            }
        }
    }
}

/// Every record of a resolved script carries correct provenance/// Every record of a resolved script carries correct provenance: the sheet,
/// and — for its side — the right tag and file, an index into that side's
/// table, and that table's row at the index as its data.
proof fn lemma_resolve_provenance(
    ops: Seq<DiffOp>,
    a: Seq<Seq<Seq<char>>>,
    b: Seq<Seq<Seq<char>>>,
    sheet: Seq<char>,
    fa: Seq<char>,
    fb: Seq<char>,
)
    requires
        forall|k: int| 0 <= k < ops.len() ==> op_in_bounds(#[trigger] ops[k], a.len() as int, b.len() as int),
    ensures
        forall|k2: int|
            0 <= k2 < spec_resolve(ops, a, b, sheet, fa, fb).len() ==> rec_provenance(
                #[trigger] spec_resolve(ops, a, b, sheet, fa, fb)[k2],
                a,
                b,
                sheet,
                fa,
                fb,
            ),
    decreases ops.len(),
{
    if ops.len() > 0 {
        assert forall|k: int|
            0 <= k < ops.drop_last().len() implies op_in_bounds(
            #[trigger] ops.drop_last()[k],
            a.len() as int,
            b.len() as int,
        ) by {
            assert(ops.drop_last()[k] == ops[k]);
        }
        lemma_resolve_provenance(ops.drop_last(), a, b, sheet, fa, fb);
        let last = ops.last();
        assert(op_in_bounds(last, a.len() as int, b.len() as int)) by {
            assert(last == ops[ops.len() - 1]);
        }
        let recs = op_records(last, a, b, sheet, fa, fb);
        assert forall|t: int| 0 <= t < recs.len() implies rec_provenance(
            #[trigger] recs[t],
            a,
            b,
            sheet,
            fa,
            fb,
        ) by {
            match last {
                DiffOp::Equal { .. } => {},
                DiffOp::Delete { old_index, old_len, new_index } => {
                    assert(recs[t] == delete_records(old_index as int, old_len as nat, a, sheet, fa)[t]);
                },
                DiffOp::Insert { old_index, new_index, new_len } => {
                    assert(recs[t] == insert_records(new_index as int, new_len as nat, b, sheet, fb)[t]);
                },
                DiffOp::Replace { old_index, old_len, new_index, new_len } => {
                    let dels = delete_records(old_index as int, old_len as nat, a, sheet, fa);
                    let inss = insert_records(new_index as int, new_len as nat, b, sheet, fb);
                    if t < dels.len() {
                        assert(recs[t] == dels[t]);
                    } else {
                        assert(recs[t] == inss[t - dels.len()]);
                    }
                },
            }
        }
        let front = spec_resolve(ops.drop_last(), a, b, sheet, fa, fb);
        let whole = spec_resolve(ops, a, b, sheet, fa, fb);
        assert forall|k2: int| 0 <= k2 < whole.len() implies rec_provenance(
            #[trigger] whole[k2],
            a,
            b,
            sheet,
            fa,
            fb,
        ) by {
            if k2 < front.len() {
                assert(whole[k2] == front[k2]);
            } else {
                assert(whole[k2] == recs[k2 - front.len()]);
            }
        }
    }
}

/// A script of equal spans alone resolves to no records at all.
proof fn lemma_resolve_all_equal(
    ops: Seq<DiffOp>,
    a: Seq<Seq<Seq<char>>>,
    b: Seq<Seq<Seq<char>>>,
    sheet: Seq<char>,
    fa: Seq<char>,
    fb: Seq<char>,
)
    requires
        ops_all_equal(ops),
    ensures
        spec_resolve(ops, a, b, sheet, fa, fb) == Seq::<CmpView>::empty(),
    decreases ops.len(),
{
    if ops.len() > 0 {
        assert forall|k: int|
            0 <= k < ops.drop_last().len() implies (#[trigger] ops.drop_last()[k]) matches DiffOp::Equal { .. } by {
            assert(ops.drop_last()[k] == ops[k]);
        }
        lemma_resolve_all_equal(ops.drop_last(), a, b, sheet, fa, fb);
        assert(ops.last() matches DiffOp::Equal { .. }) by {
            assert(ops[ops.len() - 1] matches DiffOp::Equal { .. });
        }
        assert(spec_resolve(ops, a, b, sheet, fa, fb) =~= Seq::<CmpView>::empty());
    } else {
        assert(spec_resolve(ops, a, b, sheet, fa, fb) =~= Seq::<CmpView>::empty());
    }
}

/// The same record seen from the other side: the side mark and the tag are
/// inverted, everything else is kept.
pub open spec fn flip_rec(rec: CmpView) -> CmpView {
    CmpView {
        issrc: !rec.issrc,
        tag: match rec.tag {
            ChangeTag::Delete => ChangeTag::Insert,
            ChangeTag::Insert => ChangeTag::Delete,
            ChangeTag::Equal => ChangeTag::Equal,
        },
        index: rec.index,
        file: rec.file,
        sheet: rec.sheet,
        data: rec.data,
    }
}

/// A whole group of records seen from the other side.
pub open spec fn flip_all(s: Seq<CmpView>) -> Seq<CmpView> {
    Seq::new(s.len(), |k: int| flip_rec(s[k]))
}

proof fn lemma_filter_keeps_all(s: Seq<CmpView>, pred: spec_fn(CmpView) -> bool)
    requires
        forall|k: int| 0 <= k < s.len() ==> pred(#[trigger] s[k]),
    ensures
        s.filter(pred) == s,
    decreases s.len(),
{
    reveal_with_fuel(Seq::filter, 2);
    if s.len() > 0 {
        assert forall|k: int| 0 <= k < s.drop_last().len() implies pred(
            #[trigger] s.drop_last()[k],
        ) by {
            assert(s.drop_last()[k] == s[k]);
        }
        lemma_filter_keeps_all(s.drop_last(), pred);
        assert(pred(s[s.len() - 1]));
        assert(s.filter(pred) == s.drop_last().filter(pred).push(s.last()));
        assert(s.drop_last().push(s.last()) =~= s);
    } else {
        assert(s.filter(pred) =~= s);
    }
}

proof fn lemma_filter_drops_all(s: Seq<CmpView>, pred: spec_fn(CmpView) -> bool)
    requires
        forall|k: int| 0 <= k < s.len() ==> !pred(#[trigger] s[k]),
    ensures
        s.filter(pred) == Seq::<CmpView>::empty(),
    decreases s.len(),
{
    reveal_with_fuel(Seq::filter, 2);
    if s.len() > 0 {
        assert forall|k: int| 0 <= k < s.drop_last().len() implies !pred(
            #[trigger] s.drop_last()[k],
        ) by {
            assert(s.drop_last()[k] == s[k]);
        }
        lemma_filter_drops_all(s.drop_last(), pred);
        assert(!pred(s[s.len() - 1]));
    } else {
        assert(s.filter(pred) =~= Seq::<CmpView>::empty());
    }
}

/// Swapping the sides of one opcode swaps its removed and added records,
/// record for record, with the side mark and tag inverted.
proof fn lemma_op_swap(
    op: DiffOp,
    a: Seq<Seq<Seq<char>>>,
    b: Seq<Seq<Seq<char>>>,
    sheet: Seq<char>,
    fa: Seq<char>,
    fb: Seq<char>,
)
    ensures
        removed_of(op_records(transpose_op(op), b, a, sheet, fb, fa)) == flip_all(
            added_of(op_records(op, a, b, sheet, fa, fb)),
        ),
        added_of(op_records(transpose_op(op), b, a, sheet, fb, fa)) == flip_all(
            removed_of(op_records(op, a, b, sheet, fa, fb)),
        ),
{
    reveal_with_fuel(Seq::filter, 2);
    match op {
        DiffOp::Equal { old_index, new_index, len } => {
            assert(op_records(op, a, b, sheet, fa, fb) =~= Seq::<CmpView>::empty());
            assert(op_records(transpose_op(op), b, a, sheet, fb, fa) =~= Seq::<CmpView>::empty());
            assert(Seq::<CmpView>::empty().filter(src_pred()) =~= Seq::<CmpView>::empty());
            assert(Seq::<CmpView>::empty().filter(tgt_pred()) =~= Seq::<CmpView>::empty());
            assert(flip_all(Seq::<CmpView>::empty()) =~= Seq::<CmpView>::empty());
        },
        DiffOp::Delete { old_index, old_len, new_index } => {
            let orig = delete_records(old_index as int, old_len as nat, a, sheet, fa);
            let trans = insert_records(old_index as int, old_len as nat, a, sheet, fa);
            assert(op_records(transpose_op(op), b, a, sheet, fb, fa) == trans);
            assert forall|k: int| 0 <= k < orig.len() implies src_pred()(#[trigger] orig[k]) by {}
            assert forall|k: int| 0 <= k < trans.len() implies tgt_pred()(
                #[trigger] trans[k],
            ) by {}
            lemma_filter_drops_all(trans, src_pred());
            lemma_filter_drops_all(orig, tgt_pred());
            lemma_filter_keeps_all(trans, tgt_pred());
            lemma_filter_keeps_all(orig, src_pred());
            assert(flip_all(Seq::<CmpView>::empty()) =~= Seq::<CmpView>::empty());
            assert(flip_all(orig) =~= trans);
        },
        DiffOp::Insert { old_index, new_index, new_len } => {
            let orig = insert_records(new_index as int, new_len as nat, b, sheet, fb);
            let trans = delete_records(new_index as int, new_len as nat, b, sheet, fb);
            assert(op_records(transpose_op(op), b, a, sheet, fb, fa) == trans);
            assert forall|k: int| 0 <= k < orig.len() implies tgt_pred()(#[trigger] orig[k]) by {}
            assert forall|k: int| 0 <= k < trans.len() implies src_pred()(
                #[trigger] trans[k],
            ) by {}
            lemma_filter_drops_all(trans, tgt_pred());
            lemma_filter_drops_all(orig, src_pred());
            lemma_filter_keeps_all(trans, src_pred());
            lemma_filter_keeps_all(orig, tgt_pred());
            assert(flip_all(Seq::<CmpView>::empty()) =~= Seq::<CmpView>::empty());
            assert(flip_all(orig) =~= trans);
        },
        DiffOp::Replace { old_index, old_len, new_index, new_len } => {
            let odel = delete_records(old_index as int, old_len as nat, a, sheet, fa);
            let oins = insert_records(new_index as int, new_len as nat, b, sheet, fb);
            let tdel = delete_records(new_index as int, new_len as nat, b, sheet, fb);
            let tins = insert_records(old_index as int, old_len as nat, a, sheet, fa);
            assert(op_records(op, a, b, sheet, fa, fb) == odel + oins);
            assert(op_records(transpose_op(op), b, a, sheet, fb, fa) == tdel + tins);
            assert forall|k: int| 0 <= k < odel.len() implies src_pred()(#[trigger] odel[k]) by {}
            assert forall|k: int| 0 <= k < oins.len() implies tgt_pred()(#[trigger] oins[k]) by {}
            assert forall|k: int| 0 <= k < tdel.len() implies src_pred()(#[trigger] tdel[k]) by {}
            assert forall|k: int| 0 <= k < tins.len() implies tgt_pred()(#[trigger] tins[k]) by {}
            Seq::filter_distributes_over_add(odel, oins, src_pred());
            Seq::filter_distributes_over_add(odel, oins, tgt_pred());
            Seq::filter_distributes_over_add(tdel, tins, src_pred());
            Seq::filter_distributes_over_add(tdel, tins, tgt_pred());
            lemma_filter_keeps_all(odel, src_pred());
            lemma_filter_drops_all(odel, tgt_pred());
            lemma_filter_drops_all(oins, src_pred());
            lemma_filter_keeps_all(oins, tgt_pred());
            lemma_filter_keeps_all(tdel, src_pred());
            lemma_filter_drops_all(tdel, tgt_pred());
            lemma_filter_drops_all(tins, src_pred());
            lemma_filter_keeps_all(tins, tgt_pred());
            assert(removed_of(tdel + tins) =~= tdel);
            assert(added_of(odel + oins) =~= oins);
            assert(flip_all(oins) =~= tdel);
            assert(added_of(tdel + tins) =~= tins);
            assert(removed_of(odel + oins) =~= odel);
            assert(flip_all(odel) =~= tins);
        },
    }
}

/// Swapping source and target transposes the edit script, and with it the
/// two groups of change records: the rows removed by the swapped comparison
/// are exactly the rows the original comparison added, record for record —
/// same position, same cells, same sheet, same file — with the side mark
/// and the tag inverted; and conversely for the rows added.
pub proof fn lemma_swap_sides(
    ops: Seq<DiffOp>,
    a: Seq<Seq<Seq<char>>>,
    b: Seq<Seq<Seq<char>>>,
    sheet: Seq<char>,
    fa: Seq<char>,
    fb: Seq<char>,
)
    ensures
        removed_of(spec_resolve(transpose_ops(ops), b, a, sheet, fb, fa)) == flip_all(
            added_of(spec_resolve(ops, a, b, sheet, fa, fb)),
        ),
        added_of(spec_resolve(transpose_ops(ops), b, a, sheet, fb, fa)) == flip_all(
            removed_of(spec_resolve(ops, a, b, sheet, fa, fb)),
        ),
    decreases ops.len(),
{
    reveal_with_fuel(Seq::filter, 2);
    if ops.len() == 0 {
        assert(transpose_ops(ops).len() == 0);
        assert(spec_resolve(ops, a, b, sheet, fa, fb) =~= Seq::<CmpView>::empty());
        assert(spec_resolve(transpose_ops(ops), b, a, sheet, fb, fa) =~= Seq::<CmpView>::empty());
        assert(Seq::<CmpView>::empty().filter(src_pred()) =~= Seq::<CmpView>::empty());
        assert(Seq::<CmpView>::empty().filter(tgt_pred()) =~= Seq::<CmpView>::empty());
        assert(flip_all(Seq::<CmpView>::empty()) =~= Seq::<CmpView>::empty());
    } else {
        let tops = transpose_ops(ops);
        assert(tops.drop_last() =~= transpose_ops(ops.drop_last()));
        assert(tops.last() == transpose_op(ops.last()));
        lemma_swap_sides(ops.drop_last(), a, b, sheet, fa, fb);
        lemma_op_swap(ops.last(), a, b, sheet, fa, fb);
        let ofront = spec_resolve(ops.drop_last(), a, b, sheet, fa, fb);
        let olast = op_records(ops.last(), a, b, sheet, fa, fb);
        let tfront = spec_resolve(transpose_ops(ops.drop_last()), b, a, sheet, fb, fa);
        let tlast = op_records(transpose_op(ops.last()), b, a, sheet, fb, fa);
        assert(spec_resolve(ops, a, b, sheet, fa, fb) == ofront + olast);
        assert(spec_resolve(tops, b, a, sheet, fb, fa) == tfront + tlast);
        Seq::filter_distributes_over_add(ofront, olast, src_pred());
        Seq::filter_distributes_over_add(ofront, olast, tgt_pred());
        Seq::filter_distributes_over_add(tfront, tlast, src_pred());
        Seq::filter_distributes_over_add(tfront, tlast, tgt_pred());
        assert(flip_all(added_of(ofront) + added_of(olast)) =~= flip_all(added_of(ofront))
            + flip_all(added_of(olast)));
        assert(flip_all(removed_of(ofront) + removed_of(olast)) =~= flip_all(removed_of(ofront))
            + flip_all(removed_of(olast)));
        assert(removed_of(spec_resolve(tops, b, a, sheet, fb, fa)) =~= flip_all(
            added_of(spec_resolve(ops, a, b, sheet, fa, fb)),
        ));
        assert(added_of(spec_resolve(tops, b, a, sheet, fb, fa)) =~= flip_all(
            removed_of(spec_resolve(ops, a, b, sheet, fa, fb)),
        ));
    }
}


/// The records of a script are its head opcode's records followed by the
/// records of the rest: the back-to-front definition read front-to-back.
proof fn lemma_resolve_cons(
    ops: Seq<DiffOp>,
    a: Seq<Seq<Seq<char>>>,
    b: Seq<Seq<Seq<char>>>,
    sheet: Seq<char>,
    fa: Seq<char>,
    fb: Seq<char>,
)
    requires
        ops.len() > 0,
    ensures
        spec_resolve(ops, a, b, sheet, fa, fb) == op_records(ops[0], a, b, sheet, fa, fb)
            + spec_resolve(ops.skip(1), a, b, sheet, fa, fb),
    decreases ops.len(),
{
    if ops.len() == 1 {
        assert(spec_resolve(ops.drop_last(), a, b, sheet, fa, fb) =~= Seq::<CmpView>::empty());
        assert(spec_resolve(ops.skip(1), a, b, sheet, fa, fb) =~= Seq::<CmpView>::empty());
        assert(ops[0] == ops.last());
        assert(Seq::<CmpView>::empty() + op_records(ops[0], a, b, sheet, fa, fb) =~= op_records(
            ops[0],
            a,
            b,
            sheet,
            fa,
            fb,
        ) + Seq::<CmpView>::empty());
    } else {
        lemma_resolve_cons(ops.drop_last(), a, b, sheet, fa, fb);
        assert(ops.drop_last()[0] == ops[0]);
        assert(ops.drop_last().skip(1) =~= ops.skip(1).drop_last());
        assert(ops.skip(1).last() == ops.last());
        assert(ops.skip(1).len() > 0);
        let head = op_records(ops[0], a, b, sheet, fa, fb);
        let mid = spec_resolve(ops.skip(1).drop_last(), a, b, sheet, fa, fb);
        let tail = op_records(ops.last(), a, b, sheet, fa, fb);
        assert(spec_resolve(ops, a, b, sheet, fa, fb) == (head + mid) + tail);
        assert(spec_resolve(ops.skip(1), a, b, sheet, fa, fb) == mid + tail);
        assert((head + mid) + tail =~= head + (mid + tail));
    }
}

/// The source-side records of a resolved script carry strictly increasing
/// indices, all at or past the walk position the script starts from.
proof fn lemma_resolve_src_indices(
    ops: Seq<DiffOp>,
    a: Seq<Seq<Seq<char>>>,
    b: Seq<Seq<Seq<char>>>,
    sheet: Seq<char>,
    fa: Seq<char>,
    fb: Seq<char>,
    i: int,
    n: int,
)
    requires
        ops_tile_old_from(ops, i, n),
    ensures
        forall|k: int|
            0 <= k < spec_resolve(ops, a, b, sheet, fa, fb).len() && spec_resolve(
                ops,
                a,
                b,
                sheet,
                fa,
                fb,
            )[k].issrc ==> i <= #[trigger] spec_resolve(ops, a, b, sheet, fa, fb)[k].index,
        forall|k1: int, k2: int|
            0 <= k1 < k2 < spec_resolve(ops, a, b, sheet, fa, fb).len() && spec_resolve(
                ops,
                a,
                b,
                sheet,
                fa,
                fb,
            )[k1].issrc && spec_resolve(ops, a, b, sheet, fa, fb)[k2].issrc ==> #[trigger] spec_resolve(
                ops,
                a,
                b,
                sheet,
                fa,
                fb,
            )[k1].index < #[trigger] spec_resolve(ops, a, b, sheet, fa, fb)[k2].index,
    decreases ops.len(),
{
    if ops.len() > 0 {
        lemma_resolve_cons(ops, a, b, sheet, fa, fb);
        let l = op_old_len(ops[0]);
        lemma_resolve_src_indices(ops.skip(1), a, b, sheet, fa, fb, i + l, n);
        let head = op_records(ops[0], a, b, sheet, fa, fb);
        let tail = spec_resolve(ops.skip(1), a, b, sheet, fa, fb);
        let whole = spec_resolve(ops, a, b, sheet, fa, fb);
        assert(whole == head + tail);
        assert forall|k: int| 0 <= k < head.len() && head[k].issrc implies i <= head[k].index
            && head[k].index < i + l by {
            match ops[0] {
                DiffOp::Equal { .. } => {},
                DiffOp::Delete { old_index, old_len, new_index } => {
                    assert(head[k].index == old_index + k);
                },
                DiffOp::Insert { .. } => {},
                DiffOp::Replace { old_index, old_len, new_index, new_len } => {
                    let dels = delete_records(old_index as int, old_len as nat, a, sheet, fa);
                    if k < dels.len() {
                        assert(head[k] == dels[k]);
                    } else {
                        assert(head[k] == insert_records(
                            new_index as int,
                            new_len as nat,
                            b,
                            sheet,
                            fb,
                        )[k - dels.len()]);
                        assert(!head[k].issrc);
                    }
                },
            }
        }
        assert forall|k1: int, k2: int|
            0 <= k1 < k2 < head.len() && head[k1].issrc && head[k2].issrc implies head[k1].index
            < head[k2].index by {
            match ops[0] {
                DiffOp::Equal { .. } => {},
                DiffOp::Delete { old_index, old_len, new_index } => {},
                DiffOp::Insert { .. } => {},
                DiffOp::Replace { old_index, old_len, new_index, new_len } => {
                    let dels = delete_records(old_index as int, old_len as nat, a, sheet, fa);
                    if k2 >= dels.len() {
                        assert(head[k2] == insert_records(
                            new_index as int,
                            new_len as nat,
                            b,
                            sheet,
                            fb,
                        )[k2 - dels.len()]);
                        assert(!head[k2].issrc);
                    } else {
                        assert(head[k1] == dels[k1] && head[k2] == dels[k2]);
                    }
                },
            }
        }
        assert forall|k: int| 0 <= k < whole.len() && whole[k].issrc implies i
            <= #[trigger] whole[k].index by {
            if k < head.len() {
                assert(whole[k] == head[k]);
            } else {
                assert(whole[k] == tail[k - head.len()]);
            }
        }
        assert forall|k1: int, k2: int|
            0 <= k1 < k2 < whole.len() && whole[k1].issrc && whole[k2].issrc implies #[trigger] whole[k1].index
            < #[trigger] whole[k2].index by {
            if k2 < head.len() {
                assert(whole[k1] == head[k1] && whole[k2] == head[k2]);
            } else if k1 >= head.len() {
                assert(whole[k1] == tail[k1 - head.len()] && whole[k2] == tail[k2 - head.len()]);
            } else {
                assert(whole[k1] == head[k1] && whole[k2] == tail[k2 - head.len()]);
            }
        }
    }
}

/// The target-side records of a resolved script carry strictly increasing
/// indices, all at or past the walk position the script starts from.
proof fn lemma_resolve_tgt_indices(
    ops: Seq<DiffOp>,
    a: Seq<Seq<Seq<char>>>,
    b: Seq<Seq<Seq<char>>>,
    sheet: Seq<char>,
    fa: Seq<char>,
    fb: Seq<char>,
    j: int,
    m: int,
)
    requires
        ops_tile_new_from(ops, j, m),
    ensures
        forall|k: int|
            0 <= k < spec_resolve(ops, a, b, sheet, fa, fb).len() && !spec_resolve(
                ops,
                a,
                b,
                sheet,
                fa,
                fb,
            )[k].issrc ==> j <= #[trigger] spec_resolve(ops, a, b, sheet, fa, fb)[k].index,
        forall|k1: int, k2: int|
            0 <= k1 < k2 < spec_resolve(ops, a, b, sheet, fa, fb).len() && !spec_resolve(
                ops,
                a,
                b,
                sheet,
                fa,
                fb,
            )[k1].issrc && !spec_resolve(ops, a, b, sheet, fa, fb)[k2].issrc ==> #[trigger] spec_resolve(
                ops,
                a,
                b,
                sheet,
                fa,
                fb,
            )[k1].index < #[trigger] spec_resolve(ops, a, b, sheet, fa, fb)[k2].index,
    decreases ops.len(),
{
    if ops.len() > 0 {
        lemma_resolve_cons(ops, a, b, sheet, fa, fb);
        let l = op_new_len(ops[0]);
        lemma_resolve_tgt_indices(ops.skip(1), a, b, sheet, fa, fb, j + l, m);
        let head = op_records(ops[0], a, b, sheet, fa, fb);
        let tail = spec_resolve(ops.skip(1), a, b, sheet, fa, fb);
        let whole = spec_resolve(ops, a, b, sheet, fa, fb);
        assert(whole == head + tail);
        assert forall|k: int| 0 <= k < head.len() && !head[k].issrc implies j <= head[k].index
            && head[k].index < j + l by {
            match ops[0] {
                DiffOp::Equal { .. } => {},
                DiffOp::Delete { old_index, old_len, new_index } => {
                    assert(head[k] == delete_records(old_index as int, old_len as nat, a, sheet, fa)[k]);
                    assert(head[k].issrc);
                },
                DiffOp::Insert { old_index, new_index, new_len } => {
                    assert(head[k].index == new_index + k);
                },
                DiffOp::Replace { old_index, old_len, new_index, new_len } => {
                    let dels = delete_records(old_index as int, old_len as nat, a, sheet, fa);
                    if k < dels.len() {
                        assert(head[k] == dels[k]);
                        assert(head[k].issrc);
                    } else {
                        assert(head[k] == insert_records(
                            new_index as int,
                            new_len as nat,
                            b,
                            sheet,
                            fb,
                        )[k - dels.len()]);
                    }
                },
            }
        }
        assert forall|k1: int, k2: int|
            0 <= k1 < k2 < head.len() && !head[k1].issrc && !head[k2].issrc implies head[k1].index
            < head[k2].index by {
            match ops[0] {
                DiffOp::Equal { .. } => {},
                DiffOp::Delete { old_index, old_len, new_index } => {
                    assert(head[k1] == delete_records(old_index as int, old_len as nat, a, sheet, fa)[k1]);
                    assert(head[k1].issrc);
                },
                DiffOp::Insert { .. } => {},
                DiffOp::Replace { old_index, old_len, new_index, new_len } => {
                    let dels = delete_records(old_index as int, old_len as nat, a, sheet, fa);
                    let inss = insert_records(new_index as int, new_len as nat, b, sheet, fb);
                    if k1 < dels.len() {
                        assert(head[k1] == dels[k1]);
                        assert(head[k1].issrc);
                    } else {
                        assert(head[k1] == inss[k1 - dels.len()]);
                        assert(head[k2] == inss[k2 - dels.len()]);
                    }
                },
            }
        }
        assert forall|k: int| 0 <= k < whole.len() && !whole[k].issrc implies j
            <= #[trigger] whole[k].index by {
            if k < head.len() {
                assert(whole[k] == head[k]);
            } else {
                assert(whole[k] == tail[k - head.len()]);
            }
        }
        assert forall|k1: int, k2: int|
            0 <= k1 < k2 < whole.len() && !whole[k1].issrc && !whole[k2].issrc implies #[trigger] whole[k1].index
            < #[trigger] whole[k2].index by {
            if k2 < head.len() {
                assert(whole[k1] == head[k1] && whole[k2] == head[k2]);
            } else if k1 >= head.len() {
                assert(whole[k1] == tail[k1 - head.len()] && whole[k2] == tail[k2 - head.len()]);
            } else {
                assert(whole[k1] == head[k1] && whole[k2] == tail[k2 - head.len()]);
            }
        }
    }
}

/// No two records of the same side carry the same index: the deleted spans
/// of a tiling script are disjoint, and so are the inserted spans, so the
/// records of each side point at pairwise distinct rows of their table.
pub proof fn lemma_resolve_distinct_indices(
    ops: Seq<DiffOp>,
    a: Seq<Seq<Seq<char>>>,
    b: Seq<Seq<Seq<char>>>,
    sheet: Seq<char>,
    fa: Seq<char>,
    fb: Seq<char>,
    n: int,
    m: int,
)
    requires
        ops_tile(ops, n, m),
    ensures
        forall|k1: int, k2: int|
            0 <= k1 < k2 < spec_resolve(ops, a, b, sheet, fa, fb).len() && (#[trigger] spec_resolve(
                ops,
                a,
                b,
                sheet,
                fa,
                fb,
            )[k1]).issrc == (#[trigger] spec_resolve(ops, a, b, sheet, fa, fb)[k2]).issrc
                ==> spec_resolve(ops, a, b, sheet, fa, fb)[k1].index != spec_resolve(
                ops,
                a,
                b,
                sheet,
                fa,
                fb,
            )[k2].index,
{
    lemma_resolve_src_indices(ops, a, b, sheet, fa, fb, 0, n);
    lemma_resolve_tgt_indices(ops, a, b, sheet, fa, fb, 0, m);
}

impl Comparison {
    /// Compares two tables: the key column — and, when numbering is
    /// ignored, a leading purely numeric payload token — is stripped from
    /// every row, the two payload sequences are aligned by the chosen
    /// algorithm, and every unmatched row becomes one change record on the
    /// side it came from. The records are exactly the resolution of the
    /// algorithm's script over the two payload tables; that script walks
    /// both tables completely, so the payload rows not recorded as removed
    /// and the rows not recorded as added are the same rows, in the same
    /// order. Comparing payload-identical tables yields no records; every
    /// record points back into its own table; and no two records of one
    /// side name the same row.
    pub fn run(
        algorithm: Algorithm,
        src: &Vec<Vec<String>>,
        target: &Vec<Vec<String>>,
        sheet: &str,
        src_file: &str,
        target_file: &str,
        ignore_num: bool,
    ) -> (r: DpdResult<Comparison>)
        ensures
            match r {
                Ok(comp) => ({
                    let pay_a = spec_payloads(src.deep_view(), ignore_num);
                    let pay_b = spec_payloads(target.deep_view(), ignore_num);
                    let script = script_of(algorithm, pay_a, pay_b);
                    let recs = comp.0.deep_view();
                    &&& recs == spec_resolve(script, pay_a, pay_b, sheet@, src_file@, target_file@)
                    &&& ops_tile(script, pay_a.len() as int, pay_b.len() as int)
                    &&& old_script_rows(script, pay_a) == pay_a
                    &&& new_script_rows(script, pay_b) == pay_b
                    &&& (pay_a == pay_b ==> recs.len() == 0)
                    &&& forall|k: int|
                        0 <= k < recs.len() ==> rec_provenance(
                            #[trigger] recs[k],
                            pay_a,
                            pay_b,
                            sheet@,
                            src_file@,
                            target_file@,
                        )
                    &&& forall|k1: int, k2: int|
                        0 <= k1 < k2 < recs.len() && (#[trigger] recs[k1]).issrc == (
                        #[trigger] recs[k2]).issrc ==> recs[k1].index != recs[k2].index
                }),
                Err(_) => false,
            },
    {
        let old_data = payload_rows(src, ignore_num);
        let new_data = payload_rows(target, ignore_num);
        let ops = capture_diff_rows(algorithm, &old_data, &new_data);
        let out = resolve_ops(&ops, &old_data, &new_data, sheet, src_file, target_file);
        proof {
            let a = old_data.deep_view();
            let b = new_data.deep_view();
            assert(a.len() == old_data@.len());
            assert(b.len() == new_data@.len());
            assert(ops@ == script_of(algorithm, a, b));
            if spec_payloads(src.deep_view(), ignore_num) == spec_payloads(
                target.deep_view(),
                ignore_num,
            ) {
                assert(a == b);
                lemma_resolve_all_equal(ops@, a, b, sheet@, src_file@, target_file@);
            }
            lemma_script_reproduces_inputs(ops@, a, b);
            lemma_tile_op_bounds(ops@, 0, 0, old_data@.len() as int, new_data@.len() as int);
            lemma_resolve_provenance(ops@, a, b, sheet@, src_file@, target_file@);
            lemma_resolve_distinct_indices(
                ops@,
                a,
                b,
                sheet@,
                src_file@,
                target_file@,
                old_data@.len() as int,
                new_data@.len() as int,
            );
        }
        Ok(Comparison(out))
    }
}

} // verus!
