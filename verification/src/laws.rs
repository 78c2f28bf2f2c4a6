//! The engine's cross-operation laws, stated over the same spec functions
//! the operations' contracts use and proved from them.

use vstd::prelude::*;
use crate::index::spec_find;
use crate::query::{
    all_present, spec_select, wrap_sum, wrap_sum_to, wrap_sum_version, wrap_sum_version_to,
};
use crate::table::{
    Table, apply_delta, mask_apply, resolve_latest, resolve_version, spec_deleted,
};

verus! {

/// A lookup of one live row under an all-ones mask returns exactly that
/// row's current values.
pub proof fn lemma_select_single_live_row(t: Table, rid: i64, row: Seq<Option<i64>>, mask: Seq<i64>)
    requires
        resolve_latest(t.j(), rid as int) == row,
        !spec_deleted(t.j(), rid as int),
        mask.len() == row.len(),
        forall|c: int| 0 <= c < mask.len() ==> mask[c] == 1i64,
    ensures
        spec_select(t, seq![rid], mask, 0) == seq![row],
{
    assert(mask_apply(row, mask) =~= row);
    assert(spec_select(t, seq![rid], mask, 1) =~= Seq::<Seq<Option<i64>>>::empty());
    assert(spec_select(t, seq![rid], mask, 0) =~= seq![row]);
}

/// Round-trip: inserting a row and selecting its key back under an
/// all-ones mask returns exactly that row. The first three premises are
/// what a successful insert ensures of the new table state.
pub proof fn lemma_insert_select_round_trip(
    t: Table,
    key: i64,
    rid: i64,
    record: Seq<Option<i64>>,
    mask: Seq<i64>,
)
    requires
        spec_find(t.primary(), key) == Some(seq![rid]),
        resolve_latest(t.j(), rid as int) == record,
        !spec_deleted(t.j(), rid as int),
        mask.len() == record.len(),
        forall|c: int| 0 <= c < mask.len() ==> mask[c] == 1i64,
    ensures
        spec_select(t, spec_find(t.primary(), key)->Some_0, mask, 0) == seq![record],
{
    lemma_select_single_live_row(t, rid, record, mask);
}

/// Update visibility: after updating a row with a delta, a full-mask
/// lookup shows exactly the delta's non-null columns replaced and every
/// other column unchanged. The first three premises are what a successful
/// update ensures of the new table state.
pub proof fn lemma_update_select_visibility(
    t: Table,
    key: i64,
    rid: i64,
    row: Seq<Option<i64>>,
    delta: Seq<Option<i64>>,
    mask: Seq<i64>,
)
    requires
        spec_find(t.primary(), key) == Some(seq![rid]),
        resolve_latest(t.j(), rid as int) == apply_delta(row, delta),
        !spec_deleted(t.j(), rid as int),
        mask.len() == row.len(),
        delta.len() == row.len(),
        forall|c: int| 0 <= c < mask.len() ==> mask[c] == 1i64,
    ensures
        spec_select(t, spec_find(t.primary(), key)->Some_0, mask, 0) == seq![
            apply_delta(row, delta),
        ],
        forall|c: int|
            0 <= c < row.len() ==> apply_delta(row, delta)[c] == (if delta[c] is Some {
                delta[c]
            } else {
                row[c]
            }),
{
    lemma_select_single_live_row(t, rid, apply_delta(row, delta), mask);
}

/// Newest wins: two sequential deltas both apply where they touch disjoint
/// columns, and the later one wins wherever they overlap.
pub proof fn lemma_multi_update_newest_wins(
    row: Seq<Option<i64>>,
    first: Seq<Option<i64>>,
    second: Seq<Option<i64>>,
)
    requires
        first.len() == row.len(),
        second.len() == row.len(),
    ensures
        forall|c: int|
            0 <= c < row.len() ==> apply_delta(apply_delta(row, first), second)[c] == (if second[c]
                is Some {
                second[c]
            } else if first[c] is Some {
                first[c]
            } else {
                row[c]
            }),
{
}

/// The exact (unbounded) sum of the first `i` rows' newest values in
/// `col`.
pub open spec fn exact_sum_to(t: Table, l: Seq<i64>, col: int, i: int) -> int
    decreases i,
{
    if i <= 0 {
        0
    } else {
        exact_sum_to(t, l, col, i - 1) + (resolve_latest(t.j(), l[i - 1] as int)[col]->Some_0
            as int)
    }
}

/// Sum correctness: whenever no intermediate sum leaves the 64-bit range,
/// the wrapping sum the engine returns is the arithmetic sum of the rows'
/// current values in that column - the same values `read_latest_single`
/// reports row by row. Deleted rows hold no place in the primary index, so
/// they contribute nothing.
pub proof fn lemma_sum_exact(t: Table, l: Seq<i64>, col: int)
    requires
        all_present(t, l, col),
        forall|i: int|
            0 <= i <= l.len() ==> i64::MIN <= #[trigger] exact_sum_to(t, l, col, i) <= i64::MAX,
    ensures
        wrap_sum(t, l, col) as int == exact_sum_to(t, l, col, l.len() as int),
{
    lemma_sum_exact_to(t, l, col, l.len() as int);
}

proof fn lemma_sum_exact_to(t: Table, l: Seq<i64>, col: int, i: int)
    requires
        i <= l.len(),
        all_present(t, l, col),
        forall|p: int|
            0 <= p <= l.len() ==> i64::MIN <= #[trigger] exact_sum_to(t, l, col, p) <= i64::MAX,
    ensures
        wrap_sum_to(t, l, col, i) as int == exact_sum_to(t, l, col, i),
    decreases i,
{
    if i > 0 {
        lemma_sum_exact_to(t, l, col, i - 1);
        assert(exact_sum_to(t, l, col, i) == exact_sum_to(t, l, col, i - 1) + (resolve_latest(
            t.j(),
            l[i - 1] as int,
        )[col]->Some_0 as int));
    }
}

/// Version retrieval at relative version zero is the current state: zero
/// hops back from the newest chain position resolve to the newest values.
pub proof fn lemma_version_zero_is_latest(j: Seq<crate::table::Rec>, b: int)
    ensures
        resolve_version(j, b, 0nat) == resolve_latest(j, b),
{
}

/// A version-relative sum at relative version zero is the plain sum.
pub proof fn lemma_sum_version_zero(t: Table, l: Seq<i64>, col: int)
    ensures
        wrap_sum_version(t, l, col, 0nat) == wrap_sum(t, l, col),
{
    lemma_sum_version_zero_to(t, l, col, l.len() as int);
}

proof fn lemma_sum_version_zero_to(t: Table, l: Seq<i64>, col: int, i: int)
    ensures
        wrap_sum_version_to(t, l, col, 0nat, i) == wrap_sum_to(t, l, col, i),
    decreases i,
{
    if i > 0 {
        lemma_sum_version_zero_to(t, l, col, i - 1);
        lemma_version_zero_is_latest(t.j(), l[i - 1] as int);
    }
}

} // verus!
