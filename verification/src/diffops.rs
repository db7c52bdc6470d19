//! The alignment layer: opcodes of a sequence diff and the trusted call
//! into the diff engine.
//!
//! An edit script is a list of opcodes that walks the old and the new
//! sequence in order: each opcode starts where the previous one ended on
//! both sides, `Equal` spans cover rows that are equal in both sequences,
//! and `Delete`, `Insert` and `Replace` spans cover the rows of one side
//! that the other side lacks. From that shape alone it is proved below that
//! the old-side spans concatenate back to the old sequence, and the
//! new-side spans to the new one.

use vstd::prelude::*;

verus! {

use similar::Algorithm as SimAlg;
use similar::DiffOp as SimOp;
use crate::errors::{DpdError, DpdResult};

/// The alignment algorithm to run: Myers' minimal edit script, patience
/// diff anchored on unique rows, or classic longest-common-subsequence.
#[derive(Debug, Clone, Copy, PartialEq, Eq, Structural)]
pub enum Algorithm {
    Myers,
    Patience,
    Lcs,
}

impl Algorithm {
    /// Selects an algorithm by its index; an index out of the recognized
    /// set is a processing error.
    pub fn from_index(idx: usize) -> (r: DpdResult<Algorithm>)
        ensures
            match r {
                Ok(a) => (idx == 0 && a == Algorithm::Myers) || (idx == 1 && a
                    == Algorithm::Patience) || (idx == 2 && a == Algorithm::Lcs),
                Err(e) => idx >= 3 && e matches DpdError::Processing(_),
            },
    {
        match idx {
            0 => Ok(Algorithm::Myers),
            1 => Ok(Algorithm::Patience),
            2 => Ok(Algorithm::Lcs),
            _ => Err(DpdError::Processing("Indexing on Algorithm Chosen".to_owned())),
        }
    }
}

/// One opcode of an edit script, with its index ranges into the old and the
/// new sequence.
#[derive(Debug, Clone, Copy, PartialEq, Eq, Structural)]
pub enum DiffOp {
    /// The rows of both spans are equal.
    Equal { old_index: usize, new_index: usize, len: usize },
    /// The old span is absent from the new sequence.
    Delete { old_index: usize, old_len: usize, new_index: usize },
    /// The new span is absent from the old sequence.
    Insert { old_index: usize, new_index: usize, new_len: usize },
    /// The old span is replaced by the new span.
    Replace { old_index: usize, old_len: usize, new_index: usize, new_len: usize },
}

/// Where the opcode's old-side span starts.
pub open spec fn op_old_start(op: DiffOp) -> int {
    match op {
        DiffOp::Equal { old_index, .. } => old_index as int,
        DiffOp::Delete { old_index, .. } => old_index as int,
        DiffOp::Insert { old_index, .. } => old_index as int,
        DiffOp::Replace { old_index, .. } => old_index as int,
    }
}

/// How many old-side rows the opcode covers.
pub open spec fn op_old_len(op: DiffOp) -> int {
    match op {
        DiffOp::Equal { len, .. } => len as int,
        DiffOp::Delete { old_len, .. } => old_len as int,
        DiffOp::Insert { .. } => 0,
        DiffOp::Replace { old_len, .. } => old_len as int,
    }
}

/// Where the opcode's new-side span starts.
pub open spec fn op_new_start(op: DiffOp) -> int {
    match op {
        DiffOp::Equal { new_index, .. } => new_index as int,
        DiffOp::Delete { new_index, .. } => new_index as int,
        DiffOp::Insert { new_index, .. } => new_index as int,
        DiffOp::Replace { new_index, .. } => new_index as int,
    }
}

/// How many new-side rows the opcode covers.
pub open spec fn op_new_len(op: DiffOp) -> int {
    match op {
        DiffOp::Equal { len, .. } => len as int,
        DiffOp::Delete { .. } => 0,
        DiffOp::Insert { new_len, .. } => new_len as int,
        DiffOp::Replace { new_len, .. } => new_len as int,
    }
}

/// Whether the opcodes walk the old sequence in order from position `i`
/// to its end `n`: every opcode that consumes old rows starts where the
/// previous old-consuming opcode stopped. An opcode that consumes nothing
/// on this side (an `Insert`) carries no constraint here: the diff
/// engine's cleanup passes reorder such opcodes without maintaining their
/// cross-side index.
pub open spec fn ops_tile_old_from(ops: Seq<DiffOp>, i: int, n: int) -> bool
    decreases ops.len(),
{
    if ops.len() == 0 {
        i == n
    } else {
        (op_old_len(ops[0]) > 0 ==> op_old_start(ops[0]) == i) && ops_tile_old_from(
            ops.skip(1),
            i + op_old_len(ops[0]),
            n,
        )
    }
}

/// Whether the opcodes walk the new sequence in order from position `j`
/// to its end `m`; the counterpart of `ops_tile_old_from`, with a
/// `Delete`'s cross-side index left unconstrained.
pub open spec fn ops_tile_new_from(ops: Seq<DiffOp>, j: int, m: int) -> bool
    decreases ops.len(),
{
    if ops.len() == 0 {
        j == m
    } else {
        (op_new_len(ops[0]) > 0 ==> op_new_start(ops[0]) == j) && ops_tile_new_from(
            ops.skip(1),
            j + op_new_len(ops[0]),
            m,
        )
    }
}

/// Whether the opcodes walk both sequences completely: the old-consuming
/// spans cover the old sequence from start to end in order, and the
/// new-consuming spans the new one.
pub open spec fn ops_tile(ops: Seq<DiffOp>, n: int, m: int) -> bool {
    ops_tile_old_from(ops, 0, n) && ops_tile_new_from(ops, 0, m)
}

/// Whether one `Equal` opcode stands on spans whose rows are equal.
pub open spec fn op_match(op: DiffOp, a: Seq<Seq<Seq<char>>>, b: Seq<Seq<Seq<char>>>) -> bool {
    match op {
        DiffOp::Equal { old_index, new_index, len } => old_index + len <= a.len() && new_index
            + len <= b.len() && (forall|t: int|
            0 <= t < len ==> #[trigger] a[old_index + t] == b[new_index + t]),
        _ => true,
    }
}

/// Whether every `Equal` opcode of the script stands on equal spans.
pub open spec fn ops_match(ops: Seq<DiffOp>, a: Seq<Seq<Seq<char>>>, b: Seq<Seq<Seq<char>>>) -> bool {
    forall|k: int| 0 <= k < ops.len() ==> op_match(#[trigger] ops[k], a, b)
}

/// Whether the script consists of `Equal` opcodes alone.
pub open spec fn ops_all_equal(ops: Seq<DiffOp>) -> bool {
    forall|k: int| 0 <= k < ops.len() ==> (#[trigger] ops[k]) matches DiffOp::Equal { .. }
}

/// The edit script that the diff engine computes for two row sequences.
/// The three algorithms are deterministic — their hash tables serve only
/// for lookups and are never iterated — so the script is a function of the
/// algorithm and the rows alone.
pub uninterp spec fn script_of(
    alg: Algorithm,
    a: Seq<Seq<Seq<char>>>,
    b: Seq<Seq<Seq<char>>>,
) -> Seq<DiffOp>;

/// Relies on `similar::capture_diff_slices`: the opcodes that consume the
/// old sequence — `Equal`, `Delete` and the old half of each `Replace` —
/// walk it in order from start to end, and the new-consuming opcodes walk
/// the new sequence likewise; the cross-side index of a pure `Delete` or
/// `Insert` is left unconstrained, since the engine's cleanup pass can
/// reorder such opcodes without updating it. `Equal` opcodes stand on
/// spans whose rows compare equal, and equal inputs yield a script of
/// `Equal` opcodes alone, as all three algorithms reduce equal sequences
/// to their common prefix. The algorithms are deterministic, so the
/// result is named `script_of` of the inputs.
#[verifier::external_body]
pub(crate) fn capture_diff_rows(alg: Algorithm, old: &Vec<Vec<String>>, new: &Vec<Vec<String>>) -> (r: Vec<DiffOp>)
    ensures
        r@ == script_of(alg, old.deep_view(), new.deep_view()),
        ops_tile(r@, old@.len() as int, new@.len() as int),
        ops_match(r@, old.deep_view(), new.deep_view()),
        old.deep_view() == new.deep_view() ==> ops_all_equal(r@),
{
    let a = match alg {
        Algorithm::Myers => SimAlg::Myers,
        Algorithm::Patience => SimAlg::Patience,
        Algorithm::Lcs => SimAlg::Lcs,
    };
    let mut out = Vec::new();
    for op in similar::capture_diff_slices(a, old, new) {
        out.push(match op {
            SimOp::Equal { old_index, new_index, len } => DiffOp::Equal { old_index, new_index, len },
            SimOp::Delete { old_index, old_len, new_index } => DiffOp::Delete { old_index, old_len, new_index },
            SimOp::Insert { old_index, new_index, new_len } => DiffOp::Insert { old_index, new_index, new_len },
            SimOp::Replace { old_index, old_len, new_index, new_len } => DiffOp::Replace { old_index, old_len, new_index, new_len },
        });
    }
    out
}

/// The same opcode with the two sides exchanged/// The same opcode with the two sides exchanged: spans of the old sequence
/// become spans of the new one and conversely.
pub open spec fn transpose_op(op: DiffOp) -> DiffOp {
    match op {
        DiffOp::Equal { old_index, new_index, len } => DiffOp::Equal {
            old_index: new_index,
            new_index: old_index,
            len,
        },
        DiffOp::Delete { old_index, old_len, new_index } => DiffOp::Insert {
            old_index: new_index,
            new_index: old_index,
            new_len: old_len,
        },
        DiffOp::Insert { old_index, new_index, new_len } => DiffOp::Delete {
            old_index: new_index,
            old_len: new_len,
            new_index: old_index,
        },
        DiffOp::Replace { old_index, old_len, new_index, new_len } => DiffOp::Replace {
            old_index: new_index,
            old_len: new_len,
            new_index: old_index,
            new_len: old_len,
        },
    }
}

/// The whole script with the two sides exchanged.
pub open spec fn transpose_ops(ops: Seq<DiffOp>) -> Seq<DiffOp> {
    Seq::new(ops.len(), |k: int| transpose_op(ops[k]))
}

/// A script that tiles the old sequence never runs past its end.
pub proof fn lemma_tile_old_bounds(ops: Seq<DiffOp>, i: int, n: int)
    requires
        ops_tile_old_from(ops, i, n),
    ensures
        i <= n,
        ops.len() > 0 ==> i + op_old_len(ops[0]) <= n,
    decreases ops.len(),
{
    if ops.len() > 0 {
        lemma_tile_old_bounds(ops.skip(1), i + op_old_len(ops[0]), n);
    }
}

/// A script that tiles the new sequence never runs past its end.
pub proof fn lemma_tile_new_bounds(ops: Seq<DiffOp>, j: int, m: int)
    requires
        ops_tile_new_from(ops, j, m),
    ensures
        j <= m,
        ops.len() > 0 ==> j + op_new_len(ops[0]) <= m,
    decreases ops.len(),
{
    if ops.len() > 0 {
        lemma_tile_new_bounds(ops.skip(1), j + op_new_len(ops[0]), m);
    }
}

/// The old-side rows that the script covers/// The old-side rows that the script covers, in script order: the spans of
/// `Equal` and `Delete` opcodes and the old half of each `Replace`.
pub open spec fn old_script_rows<T>(ops: Seq<DiffOp>, a: Seq<T>) -> Seq<T>
    decreases ops.len(),
{
    if ops.len() == 0 {
        Seq::empty()
    } else {
        (if op_old_len(ops[0]) > 0 {
            a.subrange(op_old_start(ops[0]), op_old_start(ops[0]) + op_old_len(ops[0]))
        } else {
            Seq::empty()
        }) + old_script_rows(ops.skip(1), a)
    }
}

/// The new-side rows that the script covers, in script order: the spans of
/// `Equal` and `Insert` opcodes and the new half of each `Replace`.
pub open spec fn new_script_rows<T>(ops: Seq<DiffOp>, b: Seq<T>) -> Seq<T>
    decreases ops.len(),
{
    if ops.len() == 0 {
        Seq::empty()
    } else {
        (if op_new_len(ops[0]) > 0 {
            b.subrange(op_new_start(ops[0]), op_new_start(ops[0]) + op_new_len(ops[0]))
        } else {
            Seq::empty()
        }) + new_script_rows(ops.skip(1), b)
    }
}

proof fn lemma_old_script_covers_from<T>(ops: Seq<DiffOp>, a: Seq<T>, i: int)
    requires
        ops_tile_old_from(ops, i, a.len() as int),
        0 <= i,
    ensures
        old_script_rows(ops, a) == a.subrange(i, a.len() as int),
    decreases ops.len(),
{
    if ops.len() == 0 {
        assert(old_script_rows(ops, a) =~= a.subrange(i, a.len() as int));
    } else {
        let l = op_old_len(ops[0]);
        let st = op_old_start(ops[0]);
        lemma_tile_old_bounds(ops, i, a.len() as int);
        lemma_old_script_covers_from(ops.skip(1), a, i + l);
        if l > 0 {
            assert(st == i);
            assert(a.subrange(i, i + l) + a.subrange(i + l, a.len() as int) =~= a.subrange(
                i,
                a.len() as int,
            ));
        } else {
            assert(Seq::<T>::empty() + a.subrange(i, a.len() as int) =~= a.subrange(
                i,
                a.len() as int,
            ));
        }
    }
}

proof fn lemma_new_script_covers_from<T>(ops: Seq<DiffOp>, b: Seq<T>, j: int)
    requires
        ops_tile_new_from(ops, j, b.len() as int),
        0 <= j,
    ensures
        new_script_rows(ops, b) == b.subrange(j, b.len() as int),
    decreases ops.len(),
{
    if ops.len() == 0 {
        assert(new_script_rows(ops, b) =~= b.subrange(j, b.len() as int));
    } else {
        let l = op_new_len(ops[0]);
        let st = op_new_start(ops[0]);
        lemma_tile_new_bounds(ops, j, b.len() as int);
        lemma_new_script_covers_from(ops.skip(1), b, j + l);
        if l > 0 {
            assert(st == j);
            assert(b.subrange(j, j + l) + b.subrange(j + l, b.len() as int) =~= b.subrange(
                j,
                b.len() as int,
            ));
        } else {
            assert(Seq::<T>::empty() + b.subrange(j, b.len() as int) =~= b.subrange(
                j,
                b.len() as int,
            ));
        }
    }
}

/// Concatenating the spans that consume the old sequence — the `Equal` and
/// `Delete` opcodes and the old half of each `Replace` — reproduces the old
/// sequence exactly, and likewise the spans that consume the new sequence —
/// `Equal`, `Insert` and the new half of each `Replace` — reproduce the new
/// sequence, for every script that walks the sequences in order.
pub proof fn lemma_script_reproduces_inputs<T>(ops: Seq<DiffOp>, a: Seq<T>, b: Seq<T>)
    requires
        ops_tile(ops, a.len() as int, b.len() as int),
    ensures
        old_script_rows(ops, a) == a,
        new_script_rows(ops, b) == b,
{
    lemma_old_script_covers_from(ops, a, 0);
    lemma_new_script_covers_from(ops, b, 0);
    assert(a.subrange(0, a.len() as int) =~= a);
    assert(b.subrange(0, b.len() as int) =~= b);
}

} // verus!
