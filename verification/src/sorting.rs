//! Width filtering and key-column sorting of tables.
//!
//! A table is a vector of rows of strings. Filtering keeps the rows of one
//! width; sorting reorders rows by a case-insensitively compared key column.
//! The sort is specified exactly: the result equals `spec_sort`, a stable
//! insertion sort over the case-folded keys, so sorting a sorted table
//! returns it unchanged.

use vstd::prelude::*;

verus! {

use vstd::seq_lib::group_seq_properties;
use crate::errors::{DpdError, DpdResult};
use crate::textops::{
    lex_le, lower_of, lowercase, str_lex_le, lemma_lex_le_total, lemma_lex_le_trans,
    lemma_lex_le_antisym,
};

/// The sort key of a row: the case-folded content of its key column.
pub open spec fn row_key(r: Vec<String>, c: int) -> Seq<char> {
    lower_of(r@[c]@)
}

/// Whether row `a` sorts at or before row `b` under key column `c`.
pub open spec fn rows_le(a: Vec<String>, b: Vec<String>, c: int) -> bool {
    lex_le(row_key(a, c), row_key(b, c))
}

/// Whether the rows are ordered by the key column.
pub open spec fn sorted_by_col(s: Seq<Vec<String>>, c: int) -> bool {
    forall|i: int, j: int| 0 <= i < j < s.len() ==> rows_le(#[trigger] s[i], #[trigger] s[j], c)
}

/// Whether every row has a cell in column `c`.
pub open spec fn all_rows_have(s: Seq<Vec<String>>, c: int) -> bool {
    forall|i: int| 0 <= i < s.len() ==> (#[trigger] s[i])@.len() > c
}

/// The predicate holding of the rows of exactly width `w`.
pub open spec fn width_pred(w: int) -> spec_fn(Vec<String>) -> bool {
    |row: Vec<String>| row@.len() == w
}

/// The widest row's cell count; zero for a table with no rows.
pub fn max_row_width(rows: &Vec<Vec<String>>) -> (w: usize)
    ensures
        forall|i: int| 0 <= i < rows@.len() ==> (#[trigger] rows@[i])@.len() <= w,
        w == 0 || exists|i: int| 0 <= i < rows@.len() && (#[trigger] rows@[i])@.len() == w,
{
    let mut w: usize = 0;
    let mut i: usize = 0;
    while i < rows.len()
        invariant
            0 <= i <= rows@.len(),
            forall|t: int| 0 <= t < i ==> (#[trigger] rows@[t])@.len() <= w,
            w == 0 || exists|t: int| 0 <= t < i && (#[trigger] rows@[t])@.len() == w,
        decreases rows@.len() - i,
    {
        let l = rows[i].len();
        if l > w {
            w = l;
        }
        i = i + 1;
    }
    w
}

/// After filtering by width `w`, every retained row has exactly `w` cells.
pub proof fn lemma_filter_width(s: Seq<Vec<String>>, w: int)
    ensures
        forall|k: int|
            0 <= k < s.filter(width_pred(w)).len() ==> (#[trigger] s.filter(width_pred(w))[k])@.len()
                == w,
{
    broadcast use vstd::seq_lib::group_filter_ensures;

    assert forall|k: int|
        0 <= k < s.filter(width_pred(w)).len() implies (#[trigger] s.filter(width_pred(w))[k])@.len()
        == w by {
        assert(width_pred(w)(s.filter(width_pred(w))[k]));
    }
}

/// Inserts a row into a sequence, after every row that sorts at or before it.
pub open spec fn spec_insert(s: Seq<Vec<String>>, x: Vec<String>, c: int) -> Seq<Vec<String>>
    decreases s.len(),
{
    if s.len() == 0 {
        seq![x]
    } else if rows_le(s.last(), x, c) {
        s.push(x)
    } else {
        spec_insert(s.drop_last(), x, c).push(s.last())
    }
}

/// The stable insertion sort of the rows by key column `c`.
pub open spec fn spec_sort(s: Seq<Vec<String>>, c: int) -> Seq<Vec<String>>
    decreases s.len(),
{
    if s.len() == 0 {
        s
    } else {
        spec_insert(spec_sort(s.drop_last(), c), s.last(), c)
    }
}

proof fn lemma_spec_insert_len(s: Seq<Vec<String>>, x: Vec<String>, c: int)
    ensures
        spec_insert(s, x, c).len() == s.len() + 1,
    decreases s.len(),
{
    if s.len() > 0 && !rows_le(s.last(), x, c) {
        lemma_spec_insert_len(s.drop_last(), x, c);
    }
}

/// Inserting into an ordered sequence keeps it ordered.
proof fn lemma_spec_insert_sorted(s: Seq<Vec<String>>, x: Vec<String>, c: int)
    requires
        sorted_by_col(s, c),
    ensures
        sorted_by_col(spec_insert(s, x, c), c),
    decreases s.len(),
{
    if s.len() == 0 {
    } else if rows_le(s.last(), x, c) {
        let out = s.push(x);
        assert forall|i: int, j: int| 0 <= i < j < out.len() implies rows_le(
            out[i],
            out[j],
            c,
        ) by {
            if j == out.len() - 1 {
                if i < s.len() - 1 {
                    lemma_lex_le_trans(row_key(s[i], c), row_key(s.last(), c), row_key(x, c));
                }
            }
        }
    } else {
        assert(sorted_by_col(s.drop_last(), c));
        lemma_spec_insert_sorted(s.drop_last(), x, c);
        lemma_lex_le_total(row_key(s.last(), c), row_key(x, c));
        let inner = spec_insert(s.drop_last(), x, c);
        lemma_spec_insert_len(s.drop_last(), x, c);
        let out = inner.push(s.last());
        lemma_spec_insert_elements(s.drop_last(), x, c);
        assert forall|i: int, j: int| 0 <= i < j < out.len() implies rows_le(
            out[i],
            out[j],
            c,
        ) by {
            if j == out.len() - 1 {
                // every element of `inner` is an original row or `x`,
                // and both sort at or before `s.last()`
                assert(inner[i] == x || s.drop_last().to_multiset().contains(inner[i]));
                if inner[i] == x {
                    assert(rows_le(x, s.last(), c));
                } else {
                    broadcast use vstd::seq_lib::group_to_multiset_ensures;

                    assert(s.drop_last().contains(inner[i]));
                    let k = choose|k: int|
                        0 <= k < s.drop_last().len() && s.drop_last()[k] == inner[i];
                    assert(s[k] == inner[i]);
                    assert(rows_le(s[k], s.last(), c));
                }
            }
        }
    }
}

/// The inserted sequence holds the new row and the old rows, nothing else.
proof fn lemma_spec_insert_elements(s: Seq<Vec<String>>, x: Vec<String>, c: int)
    ensures
        spec_insert(s, x, c).to_multiset() == s.to_multiset().insert(x),
        forall|i: int|
            0 <= i < spec_insert(s, x, c).len() ==> (#[trigger] spec_insert(s, x, c)[i] == x
                || s.to_multiset().contains(spec_insert(s, x, c)[i])),
    decreases s.len(),
{
    broadcast use vstd::seq_lib::group_to_multiset_ensures;

    if s.len() == 0 {
        assert(spec_insert(s, x, c) =~= seq![x]);
        assert(seq![x] =~= Seq::<Vec<String>>::empty().push(x));
        assert(spec_insert(s, x, c).to_multiset() =~= s.to_multiset().insert(x));
    } else if rows_le(s.last(), x, c) {
        assert(spec_insert(s, x, c).to_multiset() =~= s.to_multiset().insert(x));
        assert forall|i: int| 0 <= i < s.push(x).len() implies (#[trigger] s.push(x)[i] == x
            || s.to_multiset().contains(s.push(x)[i])) by {
            if i < s.len() {
                assert(s.contains(s[i]));
            }
        }
    } else {
        lemma_spec_insert_elements(s.drop_last(), x, c);
        let inner = spec_insert(s.drop_last(), x, c);
        assert(s.drop_last().push(s.last()) =~= s);
        assert(s.to_multiset() =~= s.drop_last().to_multiset().insert(s.last()));
        assert(inner.push(s.last()).to_multiset() =~= inner.to_multiset().insert(s.last()));
        assert(inner.push(s.last()).to_multiset() =~= s.to_multiset().insert(x));
        assert forall|i: int| 0 <= i < inner.push(s.last()).len() implies (#[trigger] inner.push(
            s.last(),
        )[i] == x || s.to_multiset().contains(inner.push(s.last())[i])) by {
            if i < inner.len() {
                if inner[i] != x {
                    assert(s.drop_last().to_multiset().contains(inner[i]));
                    assert(s.drop_last().contains(inner[i]));
                    let k = choose|k: int|
                        0 <= k < s.drop_last().len() && s.drop_last()[k] == inner[i];
                    assert(s[k] == inner[i]);
                    assert(s.contains(inner[i]));
                }
            } else {
                assert(s.contains(s.last()));
            }
        }
    }
}

/// Sorting a single row changes nothing.
proof fn lemma_sort_singleton(x: Vec<String>, c: int)
    ensures
        spec_sort(seq![x], c) == seq![x],
{
    let s = seq![x];
    assert(s.drop_last() =~= Seq::<Vec<String>>::empty());
    assert(spec_sort(Seq::<Vec<String>>::empty(), c) == Seq::<Vec<String>>::empty());
    assert(spec_sort(s, c) == spec_insert(spec_sort(s.drop_last(), c), x, c));
    assert(spec_insert(Seq::<Vec<String>>::empty(), x, c) == seq![x]);
}

/// Sorting orders the rows by the key column.
///
/// Together with `lemma_sort_of_sorted_is_identity` this says that sorting a
/// table twice by the same key column yields the same row order as sorting
/// it once.
pub proof fn lemma_sort_sorted(s: Seq<Vec<String>>, c: int)
    ensures
        sorted_by_col(spec_sort(s, c), c),
    decreases s.len(),
{
    if s.len() > 0 {
        lemma_sort_sorted(s.drop_last(), c);
        lemma_spec_insert_sorted(spec_sort(s.drop_last(), c), s.last(), c);
    }
}

/// Sorting keeps exactly the rows of the table: the result is a permutation.
pub proof fn lemma_sort_permutation(s: Seq<Vec<String>>, c: int)
    ensures
        spec_sort(s, c).to_multiset() == s.to_multiset(),
        spec_sort(s, c).len() == s.len(),
    decreases s.len(),
{
    broadcast use vstd::seq_lib::group_to_multiset_ensures;

    if s.len() > 0 {
        lemma_sort_permutation(s.drop_last(), c);
        lemma_spec_insert_elements(spec_sort(s.drop_last(), c), s.last(), c);
        lemma_spec_insert_len(spec_sort(s.drop_last(), c), s.last(), c);
        assert(s.drop_last().push(s.last()) =~= s);
        assert(s.to_multiset() =~= s.drop_last().to_multiset().insert(s.last()));
    }
}

/// Sorting an already ordered table returns it unchanged.
pub proof fn lemma_sort_of_sorted_is_identity(s: Seq<Vec<String>>, c: int)
    requires
        sorted_by_col(s, c),
    ensures
        spec_sort(s, c) == s,
    decreases s.len(),
{
    if s.len() > 0 {
        assert(sorted_by_col(s.drop_last(), c));
        lemma_sort_of_sorted_is_identity(s.drop_last(), c);
        if s.len() == 1 {
            assert(spec_sort(s, c) =~= s);
        } else {
            assert(rows_le(s[s.len() - 2], s[s.len() - 1], c));
            assert(s.drop_last().last() == s[s.len() - 2]);
            assert(spec_sort(s, c) == s.drop_last().push(s.last()));
            assert(s.drop_last().push(s.last()) =~= s);
        }
    }
}

/// Sorting a second time by the same key column changes nothing: the row
/// order that one sort establishes is exactly the order the next sort keeps.
pub proof fn lemma_sort_idempotent(s: Seq<Vec<String>>, c: int)
    ensures
        spec_sort(spec_sort(s, c), c) == spec_sort(s, c),
{
    lemma_sort_sorted(s, c);
    lemma_sort_of_sorted_is_identity(spec_sort(s, c), c);
}


/// Whether no two rows of the table share a case-folded key in column `c`.
pub open spec fn distinct_keys(s: Seq<Vec<String>>, c: int) -> bool {
    forall|i: int, j: int|
        0 <= i < j < s.len() ==> row_key(#[trigger] s[i], c) != row_key(#[trigger] s[j], c)
}

/// Inserting a row with a fresh key keeps the keys pairwise distinct.
proof fn lemma_insert_keeps_distinct(u: Seq<Vec<String>>, x: Vec<String>, c: int)
    requires
        distinct_keys(u, c),
        forall|i: int| 0 <= i < u.len() ==> row_key(#[trigger] u[i], c) != row_key(x, c),
    ensures
        distinct_keys(spec_insert(u, x, c), c),
    decreases u.len(),
{
    broadcast use vstd::seq_lib::group_to_multiset_ensures;

    let out = spec_insert(u, x, c);
    lemma_spec_insert_len(u, x, c);
    if u.len() == 0 {
    } else if rows_le(u.last(), x, c) {
        assert forall|i: int, j: int| 0 <= i < j < out.len() implies row_key(#[trigger] out[i], c)
            != row_key(#[trigger] out[j], c) by {
            if j == out.len() - 1 {
                assert(out[i] == u[i]);
            }
        }
    } else {
        assert(distinct_keys(u.drop_last(), c));
        assert forall|i: int|
            0 <= i < u.drop_last().len() implies row_key(#[trigger] u.drop_last()[i], c)
            != row_key(x, c) by {
            assert(u.drop_last()[i] == u[i]);
        }
        lemma_insert_keeps_distinct(u.drop_last(), x, c);
        let inner = spec_insert(u.drop_last(), x, c);
        lemma_spec_insert_len(u.drop_last(), x, c);
        lemma_spec_insert_elements(u.drop_last(), x, c);
        assert forall|i: int, j: int| 0 <= i < j < out.len() implies row_key(#[trigger] out[i], c)
            != row_key(#[trigger] out[j], c) by {
            if j == out.len() - 1 {
                assert(out[j] == u.last());
                assert(out[i] == inner[i]);
                assert(inner[i] == x || u.drop_last().to_multiset().contains(inner[i]));
                if inner[i] == x {
                    assert(row_key(u[u.len() - 1], c) != row_key(x, c));
                } else {
                    assert(u.drop_last().contains(inner[i]));
                    let k = choose|k: int|
                        0 <= k < u.drop_last().len() && u.drop_last()[k] == inner[i];
                    assert(u[k] == inner[i]);
                    assert(row_key(u[k], c) != row_key(u[u.len() - 1], c));
                }
            } else {
                assert(out[i] == inner[i] && out[j] == inner[j]);
            }
        }
    }
}

/// Sorting keeps the keys pairwise distinct.
proof fn lemma_sort_keeps_distinct(s: Seq<Vec<String>>, c: int)
    requires
        distinct_keys(s, c),
    ensures
        distinct_keys(spec_sort(s, c), c),
    decreases s.len(),
{
    broadcast use vstd::seq_lib::group_to_multiset_ensures;

    if s.len() > 0 {
        assert(distinct_keys(s.drop_last(), c));
        lemma_sort_keeps_distinct(s.drop_last(), c);
        lemma_sort_permutation(s.drop_last(), c);
        let sd = spec_sort(s.drop_last(), c);
        assert forall|i: int| 0 <= i < sd.len() implies row_key(#[trigger] sd[i], c) != row_key(
            s.last(),
            c,
        ) by {
            assert(sd.contains(sd[i]));
            assert(sd.to_multiset().count(sd[i]) > 0);
            assert(s.drop_last().contains(sd[i]));
            let k = choose|k: int| 0 <= k < s.drop_last().len() && s.drop_last()[k] == sd[i];
            assert(s[k] == sd[i]);
            assert(row_key(s[k], c) != row_key(s[s.len() - 1], c));
        }
        lemma_insert_keeps_distinct(sd, s.last(), c);
    }
}

/// Two ordered tables with the same rows and pairwise distinct keys are the
/// same sequence.
proof fn lemma_sorted_multiset_unique(s: Seq<Vec<String>>, t: Seq<Vec<String>>, c: int)
    requires
        sorted_by_col(s, c),
        sorted_by_col(t, c),
        s.to_multiset() == t.to_multiset(),
        distinct_keys(s, c),
    ensures
        s == t,
    decreases s.len(),
{
    broadcast use vstd::seq_lib::group_to_multiset_ensures;

    assert(s.len() == s.to_multiset().len());
    assert(t.len() == t.to_multiset().len());
    if s.len() == 0 {
        assert(s =~= t);
    } else {
        assert(t.contains(t[0]));
        assert(s.to_multiset().count(t[0]) > 0);
        assert(s.contains(t[0]));
        let j = choose|j: int| 0 <= j < s.len() && s[j] == t[0];
        if j > 0 {
            assert(rows_le(s[0], s[j], c));
            assert(s.contains(s[0]));
            assert(t.to_multiset().count(s[0]) > 0);
            assert(t.contains(s[0]));
            let j2 = choose|j2: int| 0 <= j2 < t.len() && t[j2] == s[0];
            if j2 > 0 {
                assert(rows_le(t[0], t[j2], c));
            } else {
                lemma_lex_le_total(row_key(t[0], c), row_key(t[0], c));
            }
            assert(rows_le(t[0], s[0], c));
            lemma_lex_le_antisym(row_key(s[0], c), row_key(t[0], c));
            assert(row_key(s[0], c) == row_key(s[j], c));
            assert(false);
        }
        assert(s[0] == t[0]);
        let s1 = s.remove(0);
        let t1 = t.remove(0);
        assert(s1.to_multiset() =~= s.to_multiset().remove(s[0]));
        assert(t1.to_multiset() =~= t.to_multiset().remove(t[0]));
        assert(s1.to_multiset() == t1.to_multiset());
        assert forall|i: int, j3: int| 0 <= i < j3 < s1.len() implies rows_le(
            #[trigger] s1[i],
            #[trigger] s1[j3],
            c,
        ) by {
            assert(s1[i] == s[i + 1] && s1[j3] == s[j3 + 1]);
        }
        assert forall|i: int, j3: int| 0 <= i < j3 < t1.len() implies rows_le(
            #[trigger] t1[i],
            #[trigger] t1[j3],
            c,
        ) by {
            assert(t1[i] == t[i + 1] && t1[j3] == t[j3 + 1]);
        }
        assert forall|i: int, j3: int| 0 <= i < j3 < s1.len() implies row_key(
            #[trigger] s1[i],
            c,
        ) != row_key(#[trigger] s1[j3], c) by {
            assert(s1[i] == s[i + 1] && s1[j3] == s[j3 + 1]);
        }
        lemma_sorted_multiset_unique(s1, t1, c);
        assert forall|i: int| 0 <= i < s.len() implies s[i] == t[i] by {
            if i > 0 {
                assert(s[i] == s1[i - 1] && t[i] == t1[i - 1]);
            }
        }
        assert(s =~= t);
    }
}

/// Identical tables in different row order align after a key sort: when no
/// two rows share a case-folded key, any two row-permutations of one table
/// sort to the same sequence under that key, so comparing the sorted copies
/// yields no change records. With a shared folded key the claim can fail,
/// as the stable sort keeps each permutation's own relative order.
pub proof fn lemma_key_sort_canonical(s: Seq<Vec<String>>, t: Seq<Vec<String>>, c: int)
    requires
        s.to_multiset() == t.to_multiset(),
        distinct_keys(s, c),
    ensures
        spec_sort(s, c) == spec_sort(t, c),
{
    lemma_sort_sorted(s, c);
    lemma_sort_sorted(t, c);
    lemma_sort_permutation(s, c);
    lemma_sort_permutation(t, c);
    lemma_sort_keeps_distinct(s, c);
    lemma_sorted_multiset_unique(spec_sort(s, c), spec_sort(t, c), c);
}

/// Compares two rows by the case-folded content of column `c`.
fn row_le(a: &Vec<String>, b: &Vec<String>, c: usize) -> (r: bool)
    requires
        c < a@.len(),
        c < b@.len(),
    ensures
        r == rows_le(*a, *b, c as int),
{
    let ka = lowercase(a[c].as_str());
    let kb = lowercase(b[c].as_str());
    str_lex_le(ka.as_str(), kb.as_str())
}

/// Reordering and pruning of a table's rows in place.
pub trait SortVec {
    type ReturnType;

    /// Keeps only the rows of the given width.
    fn filter_col(&mut self, size: usize) -> Self::ReturnType;

    /// Sorts the rows by the given key column, comparing case-insensitively.
    fn sort_by_col(&mut self, idx_col: usize) -> Self::ReturnType;
}

impl SortVec for Vec<Vec<String>> {
    type ReturnType = DpdResult<()>;

    /// Keeps exactly the rows with `size_row` cells, in their original order.
    fn filter_col(&mut self, size_row: usize) -> (r: DpdResult<()>)
        ensures
            (*final(self))@ == (*old(self))@.filter(width_pred(size_row as int)),
            r is Ok,
    {
        broadcast use group_seq_properties;

        let ghost orig = self@;
        let mut out: Vec<Vec<String>> = Vec::new();
        let ghost taken: int = 0;
        while self.len() > 0
            invariant
                0 <= taken <= orig.len(),
                self@ =~= orig.skip(taken),
                out@ =~= orig.subrange(0, taken).filter(width_pred(size_row as int)),
            decreases self@.len(),
        {
            let row = self.remove(0);
            proof {
                assert(row == orig[taken]);
            }
            let keep = row.len() == size_row;
            proof {
                assert(keep == width_pred(size_row as int)(orig[taken]));
            }
            if keep {
                out.push(row);
            }
            proof {
                reveal_with_fuel(Seq::filter, 2);
                let s1 = orig.subrange(0, taken + 1);
                assert(s1.drop_last() =~= orig.subrange(0, taken));
                assert(s1.last() == orig[taken]);
                if width_pred(size_row as int)(orig[taken]) {
                    assert(s1.filter(width_pred(size_row as int)) == s1.drop_last().filter(
                        width_pred(size_row as int),
                    ).push(s1.last()));
                } else {
                    assert(s1.filter(width_pred(size_row as int)) == s1.drop_last().filter(
                        width_pred(size_row as int),
                    ));
                }
                taken = taken + 1;
                assert(self@ =~= orig.skip(taken));
                assert(out@ =~= orig.subrange(0, taken).filter(width_pred(size_row as int)));
            }
        }
        proof {
            assert(orig.subrange(0, orig.len() as int) =~= orig);
        }
        *self = out;
        Ok(())
    }

    /// Sorts the rows by case-insensitive comparison of column `idx_col`.
    /// The result is pinned to `spec_sort`, so equal keys keep their
    /// original relative order, and sorting an ordered table is a no-op.
    /// A column index that some row does not reach is rejected with a
    /// validation error, and the table is left unchanged.
    fn sort_by_col(&mut self, idx_col: usize) -> (r: DpdResult<()>)
        ensures
            match r {
                Ok(()) => all_rows_have((*old(self))@, idx_col as int) && (*final(self))@
                    == spec_sort((*old(self))@, idx_col as int),
                Err(e) => !all_rows_have((*old(self))@, idx_col as int) && *final(self) == *old(
                    self,
                ) && e matches DpdError::Validation(_),
            },
    {
        let ghost orig = self@;
        let ghost c = idx_col as int;
        let mut k: usize = 0;
        while k < self.len()
            invariant
                c == idx_col as int,
                0 <= k <= self@.len(),
                self@ == orig,
                forall|t: int| 0 <= t < k ==> (#[trigger] orig[t])@.len() > c,
            decreases self@.len() - k,
        {
            let width = self[k].len();
            proof {
                assert(width == orig[k as int]@.len());
            }
            if width <= idx_col {
                return Err(
                    DpdError::Validation(
                        "the key column is out of bounds for the table".to_owned(),
                    ),
                );
            }
            k = k + 1;
        }
        if self.len() <= 1 {
            proof {
                if orig.len() == 1 {
                    assert(orig =~= seq![orig[0]]);
                    lemma_sort_singleton(orig[0], c);
                    assert(spec_sort(orig, c) =~= orig);
                }
            }
            return Ok(());
        }
        proof {
            let s1 = orig.subrange(0, 1);
            assert(s1 =~= seq![orig[0]]);
            lemma_sort_singleton(orig[0], c);
            assert(spec_sort(s1, c) =~= seq![orig[0]]);
            assert(self@.subrange(0, 1) =~= seq![orig[0]]);
        }
        let mut i: usize = 1;
        while i < self.len()
            invariant
                c == idx_col as int,
                1 <= i <= self@.len(),
                self@.len() == orig.len(),
                all_rows_have(orig, c),
                all_rows_have(self@, c),
                self@.subrange(0, i as int) =~= spec_sort(orig.subrange(0, i as int), c),
                self@.skip(i as int) =~= orig.skip(i as int),
            decreases self@.len() - i,
        {
            let ghost pre = self@;
            let ghost sorted_prefix = self@.subrange(0, i as int);
            let x = self.remove(i);
            proof {
                assert(pre[i as int] == pre.skip(i as int)[0]);
                assert(x == orig[i as int]);
                assert(self@.subrange(0, i as int) =~= sorted_prefix);
                assert(x@.len() > c);
                assert forall|t: int| 0 <= t < self@.len() implies (#[trigger] self@[t])@.len()
                    > c by {
                    if t < i {
                        assert(self@[t] == pre[t]);
                    } else {
                        assert(self@[t] == pre[t + 1]);
                    }
                }
            }
            let mut j: usize = i;
            while j > 0
                invariant
                    c == idx_col as int,
                    0 <= j <= i < pre.len(),
                    i < orig.len(),
                    self@ =~= pre.remove(i as int),
                    x == pre[i as int],
                    x@.len() > c,
                    all_rows_have(self@, c),
                    self@.subrange(0, i as int) =~= sorted_prefix,
                    forall|t: int| j <= t < i ==> !rows_le(#[trigger] sorted_prefix[t], x, c),
                ensures
                    0 <= j <= i,
                    self@ =~= pre.remove(i as int),
                    all_rows_have(self@, c),
                    self@.subrange(0, i as int) =~= sorted_prefix,
                    forall|t: int| j <= t < i ==> !rows_le(#[trigger] sorted_prefix[t], x, c),
                    j > 0 ==> rows_le(sorted_prefix[j - 1], x, c),
                decreases j,
            {
                proof {
                    assert(self@[j - 1]@.len() > c);
                    assert(self@[j - 1] == self@.subrange(0, i as int)[j - 1]);
                    assert(self@[j - 1] == sorted_prefix[j - 1]);
                }
                let prev_le = row_le(&self[j - 1], &x, idx_col);
                if prev_le {
                    break;
                }
                j = j - 1;
            }
            let ghost before_ins = self@;
            self.insert(j, x);
            proof {
                assert(self@ == before_ins.insert(j as int, x));
                lemma_spec_insert_position(sorted_prefix, x, c, j as int);
                let target = sorted_prefix.subrange(0, j as int) + seq![x]
                    + sorted_prefix.subrange(j as int, i as int);
                assert(self@.len() == before_ins.len() + 1);
                assert(before_ins.len() == pre.len() - 1);
                assert forall|t: int| 0 <= t < i + 1 implies self@.subrange(0, i + 1)[t]
                    == target[t] by {
                    assert(self@.subrange(0, i + 1)[t] == self@[t]);
                    if t < j {
                        assert(self@[t] == before_ins[t]);
                        assert(before_ins[t] == before_ins.subrange(0, i as int)[t]);
                        assert(target[t] == sorted_prefix[t]);
                    } else if t == j {
                        assert(self@[t] == x);
                        assert(target[t] == x);
                    } else {
                        assert(self@[t] == before_ins[t - 1]);
                        assert(before_ins[t - 1] == before_ins.subrange(0, i as int)[t - 1]);
                        assert(target[t] == sorted_prefix[t - 1]);
                    }
                }
                assert(self@.subrange(0, i + 1) =~= target);
                assert(self@.subrange(0, i + 1) =~= spec_insert(sorted_prefix, x, c));
                assert(orig.subrange(0, i + 1).drop_last() =~= orig.subrange(0, i as int));
                assert(orig.subrange(0, i + 1).last() == x);
                assert(self@.subrange(0, i + 1) =~= spec_sort(orig.subrange(0, i + 1), c));
                assert forall|t: int| 0 <= t < self@.len() - (i + 1) implies #[trigger] self@.skip(
                    i + 1,
                )[t] == orig.skip(i + 1)[t] by {
                    assert(self@.skip(i + 1)[t] == self@[t + i + 1]);
                    assert(self@[t + i + 1] == before_ins[t + i]);
                    assert(before_ins[t + i] == pre.remove(i as int)[t + i]);
                    assert(pre.remove(i as int)[t + i] == pre[t + i + 1]);
                    assert(pre.skip(i as int)[t + 1] == orig.skip(i as int)[t + 1]);
                    assert(pre[t + i + 1] == orig[t + i + 1]);
                    assert(orig.skip(i + 1)[t] == orig[t + i + 1]);
                }
                assert(self@.skip(i + 1) =~= orig.skip(i + 1));
                assert forall|t: int| 0 <= t < self@.len() implies (#[trigger] self@[t])@.len()
                    > c by {
                    if t < j {
                        assert(self@[t] == before_ins[t]);
                    } else if t > j {
                        assert(self@[t] == before_ins[t - 1]);
                    }
                }
            }
            i = i + 1;
        }
        proof {
            assert(i == orig.len());
            assert(orig.subrange(0, orig.len() as int) =~= orig);
            assert(self@.subrange(0, orig.len() as int) =~= self@);
        }
        Ok(())
    }
}

/// Where the scan of the exec sort stops is exactly where `spec_insert`
/// places the row.
proof fn lemma_spec_insert_position(s: Seq<Vec<String>>, x: Vec<String>, c: int, j: int)
    requires
        0 <= j <= s.len(),
        forall|t: int| j <= t < s.len() ==> !rows_le(#[trigger] s[t], x, c),
        j > 0 ==> rows_le(s[j - 1], x, c),
    ensures
        spec_insert(s, x, c) == s.subrange(0, j) + seq![x] + s.subrange(j, s.len() as int),
    decreases s.len(),
{
    if s.len() == 0 {
        assert(spec_insert(s, x, c) =~= s.subrange(0, j) + seq![x] + s.subrange(
            j,
            s.len() as int,
        ));
    } else if j == s.len() {
        assert(rows_le(s.last(), x, c));
        assert(s.subrange(j, s.len() as int) =~= Seq::<Vec<String>>::empty());
        assert(s.subrange(0, j) =~= s);
        assert(spec_insert(s, x, c) =~= s.subrange(0, j) + seq![x] + s.subrange(
            j,
            s.len() as int,
        ));
    } else {
        assert(!rows_le(s.last(), x, c));
        lemma_spec_insert_position(s.drop_last(), x, c, j);
        assert(s.drop_last().subrange(0, j) =~= s.subrange(0, j));
        assert(s.drop_last().subrange(j, s.drop_last().len() as int) =~= s.subrange(
            j,
            s.len() - 1,
        ));
        assert(spec_insert(s, x, c) == spec_insert(s.drop_last(), x, c).push(s.last()));
        assert(spec_insert(s, x, c) =~= s.subrange(0, j) + seq![x] + s.subrange(
            j,
            s.len() as int,
        ));
    }
}

} // verus!
