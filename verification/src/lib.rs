//! A table comparison library: two tables of string rows are normalized,
//! filtered to a common width, sorted by a key column, aligned by a sequence
//! diff, and the unmatched rows are reported as change records attributed to
//! the side they came from.

pub mod errors;
pub mod textops;
pub mod sorting;
pub mod deserializer;
pub mod diffops;
pub mod compares;

use vstd::prelude::*;

verus! {

use crate::errors::{DpdError, DpdResult};
use crate::compares::CmpData;
use crate::textops::str_eq;

/// A plain wrapper around a vector, kept for display-oriented callers.
#[derive(Clone, PartialEq, Eq, PartialOrd, Ord)]
pub struct LimitedVec<T>(pub Vec<T>);

/// What the rows two tables share at each position, pairwise.
pub open spec fn spec_identic_upto(a: Seq<Seq<char>>, b: Seq<Seq<char>>, k: int) -> Seq<Seq<char>>
    decreases k,
{
    if k <= 0 {
        Seq::empty()
    } else {
        spec_identic_upto(a, b, k - 1) + if a[k - 1] == b[k - 1] {
            seq![a[k - 1]]
        } else {
            Seq::empty()
        }
    }
}

/// The cells two rows share: each position where both hold the same value
/// contributes that value, in order.
pub open spec fn spec_identic(a: Seq<Seq<char>>, b: Seq<Seq<char>>) -> Seq<Seq<char>> {
    spec_identic_upto(
        a,
        b,
        if a.len() <= b.len() {
            a.len() as int
        } else {
            b.len() as int
        },
    )
}

/// The pairwise common part of two values.
pub trait Identic {
    type Type;

    fn get_identic(&self, rhs: &Self::Type) -> Self::Type;
}

impl Identic for Vec<String> {
    type Type = Vec<String>;

    /// Keeps the cells where the two rows agree, in order.
    fn get_identic(&self, rhs: &Vec<String>) -> (r: Vec<String>)
        ensures
            r.deep_view() == spec_identic(self.deep_view(), rhs.deep_view()),
    {
        let ghost av = self.deep_view();
        let ghost bv = rhs.deep_view();
        let stop: usize = if self.len() <= rhs.len() {
            self.len()
        } else {
            rhs.len()
        };
        let mut r: Vec<String> = Vec::new();
        let mut i: usize = 0;
        while i < stop
            invariant
                0 <= i <= stop,
                av == self.deep_view(),
                bv == rhs.deep_view(),
                av.len() == self@.len(),
                bv.len() == rhs@.len(),
                stop == if av.len() <= bv.len() {
                    av.len() as int
                } else {
                    bv.len() as int
                },
                r.deep_view() =~= spec_identic_upto(av, bv, i as int),
            decreases stop - i,
        {
            let ghost prev = r.deep_view();
            if str_eq(self[i].as_str(), rhs[i].as_str()) {
                let cell = self[i].clone();
                let ghost cv = cell@;
                r.push(cell);
                proof {
                    assert(r.deep_view() =~= prev.push(cv));
                    assert(av[i as int] == bv[i as int]);
                    assert(spec_identic_upto(av, bv, i + 1) =~= prev.push(av[i as int]));
                }
            } else {
                proof {
                    assert(av[i as int] != bv[i as int]);
                    assert(spec_identic_upto(av, bv, i + 1) =~= prev);
                }
            }
            i = i + 1;
        }
        r
    }
}

/// Which side of a comparison's outcome is being looked at.
#[derive(Debug, Default, PartialEq, Eq)]
pub enum Targets {
    #[default]
    Source,
    Target,
}

/// A notice passed from background work back to the interface.
pub enum Message {
    FileOpen(DpdResult<CmpData>),
    ReturnDialog(bool),
    IgnoredResult(Option<()>),
}

/// Runs a comparison directly from two file paths. The non-interactive
/// mode is an open gap with no reader wired to it, so every call reports
/// a processing error that names both files.
pub fn run_without_ui(source: String, target: String) -> (r: DpdResult<()>)
    ensures
        match r {
            Err(DpdError::Processing(m)) => m@ == "todo! run_without_ui implementation "@
                + source@ + target@,
            _ => false,
        },
{
    let mut m = "todo! run_without_ui implementation ".to_owned();
    m.append(source.as_str());
    m.append(target.as_str());
    Err(DpdError::Processing(m))
}

/// Marks every sixth row, so that a renderer can draw it taller.
pub fn thick_row(row_index: usize) -> (r: bool)
    ensures
        r == (row_index % 6 == 0),
{
    row_index % 6 == 0
}

/// A consumer of table rows; the library itself provides no implementation.
pub trait TableData {
    fn pass_data(d: &Vec<Vec<String>>);
}

} // verus!
