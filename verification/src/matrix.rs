//! The item-by-tag sparse profile matrix: one row per dense item id up to
//! the largest id with a nonzero mean weight, each row a list of
//! (tag column, fixed-point weight) entries.

use vstd::prelude::*;

use crate::data::TagV;
use crate::aggregate::{tag_mean_of, tag_pairs};

verus! {

/// The value a sparse row holds at a column (zero when absent; the last
/// entry wins, though rows are built with distinct columns).
pub open spec fn row_val(row: Seq<(i32, i64)>, c: int) -> int
    decreases row.len(),
{
    if row.len() == 0 {
        0
    } else if row.last().0 == c {
        row.last().1 as int
    } else {
        row_val(row.drop_last(), c)
    }
}

/// The value an entry list holds at (row, column): the last nonzero-mean
/// entry for that pair, or zero.
pub open spec fn entries_val(es: Seq<(i32, i32, i64)>, r: int, c: int) -> int
    decreases es.len(),
{
    if es.len() == 0 {
        0
    } else if es.last().0 == r && es.last().1 == c && es.last().2 != 0 {
        es.last().2 as int
    } else {
        entries_val(es.drop_last(), r, c)
    }
}

/// The row entries an entry list contributes to one row, in order.
pub open spec fn row_of(es: Seq<(i32, i32, i64)>, r: int) -> Seq<(i32, i64)>
    decreases es.len(),
{
    if es.len() == 0 {
        Seq::<(i32, i64)>::empty()
    } else {
        let p = row_of(es.drop_last(), r);
        if es.last().0 == r && es.last().2 != 0 {
            p.push((es.last().1, es.last().2))
        } else {
            p
        }
    }
}

/// The largest row id among nonzero entries (zero when there are none).
pub open spec fn max_row_id(es: Seq<(i32, i32, i64)>) -> int
    decreases es.len(),
{
    if es.len() == 0 {
        0
    } else {
        let m = max_row_id(es.drop_last());
        if es.last().2 != 0 && es.last().0 > m {
            es.last().0 as int
        } else {
            m
        }
    }
}

/// The largest column id among nonzero entries (zero when there are none).
pub open spec fn max_col_id(es: Seq<(i32, i32, i64)>) -> int
    decreases es.len(),
{
    if es.len() == 0 {
        0
    } else {
        let m = max_col_id(es.drop_last());
        if es.last().2 != 0 && es.last().1 > m {
            es.last().1 as int
        } else {
            m
        }
    }
}

/// The item-by-tag sparse profile matrix.
pub struct SparseMatrix {
    pub rows: Vec<Vec<(i32, i64)>>,
    pub cols: usize,
}

impl SparseMatrix {
    /// Well-formed: row and column counts fit the id space, every stored
    /// entry is a nonzero bounded weight at a column within bounds, and
    /// columns are distinct within a row.
    pub open spec fn wf(&self) -> bool {
        &&& self.rows@.len() <= 0x8000_0000
        &&& self.cols <= 0x8000_0000
        &&& forall|r: int, k: int|
            0 <= r < self.rows@.len() && 0 <= k < self.rows@[r]@.len() ==> {
                let e = #[trigger] self.rows@[r]@[k];
                0 <= e.0 < self.cols && -(crate::VMAX as int) <= e.1 <= crate::VMAX as int
                    && e.1 != 0
            }
        &&& forall|r: int, k1: int, k2: int|
            0 <= r < self.rows@.len() && 0 <= k1 < k2 < self.rows@[r]@.len() ==> (
            #[trigger] self.rows@[r]@[k1]).0 != (#[trigger] self.rows@[r]@[k2]).0
    }

    /// The matrix value at (row, column); zero outside the stored area.
    pub open spec fn entry(&self, r: int, c: int) -> int {
        if 0 <= r < self.rows@.len() {
            row_val(self.rows@[r]@, c)
        } else {
            0
        }
    }
}

/// The matrix value an (item, tag) pair carries under the data model: its
/// mean weight if the pair is recorded with a nonzero mean, else zero.
pub open spec fn mat_val(ts: Seq<TagV>, vn: int, tag: int) -> int {
    if tag_pairs(ts).contains((vn, tag)) && tag_mean_of(ts, vn, tag) != 0 {
        tag_mean_of(ts, vn, tag)
    } else {
        0
    }
}

/// The tag pairs never repeat.
pub proof fn lemma_tag_pairs_distinct(ts: Seq<TagV>)
    ensures
        forall|j1: int, j2: int|
            0 <= j1 < j2 < tag_pairs(ts).len() ==> tag_pairs(ts)[j1] != tag_pairs(ts)[j2],
    decreases ts.len(),
{
    if ts.len() > 0 {
        lemma_tag_pairs_distinct(ts.drop_last());
        let p = tag_pairs(ts.drop_last());
        let key = (ts.last().vn_id, ts.last().tag_id);
        if !p.contains(key) {
            assert forall|j1: int, j2: int|
                0 <= j1 < j2 < p.push(key).len() implies p.push(key)[j1] != p.push(key)[j2] by {
                if j2 < p.len() {
                    assert(p.push(key)[j1] == p[j1] && p.push(key)[j2] == p[j2]);
                } else {
                    assert(p.push(key)[j2] == key && p.push(key)[j1] == p[j1]);
                    assert(!p.contains(key));
                }
            }
        }
    }
}

/// Looking an entry list up at (r, c) matches looking its row up at c.
proof fn lemma_row_of_val(es: Seq<(i32, i32, i64)>, r: int, c: int)
    ensures
        row_val(row_of(es, r), c) == entries_val(es, r, c),
    decreases es.len(),
{
    if es.len() > 0 {
        lemma_row_of_val(es.drop_last(), r, c);
        let p = row_of(es.drop_last(), r);
        if es.last().0 == r && es.last().2 != 0 {
            assert(row_of(es, r) == p.push((es.last().1, es.last().2)));
            assert(row_of(es, r).last() == (es.last().1, es.last().2));
            assert(row_of(es, r).drop_last() =~= p);
        }
    }
}

/// Every element of a built row comes from an entry of the list.
proof fn lemma_row_of_source(es: Seq<(i32, i32, i64)>, r: int, k: int)
    requires
        0 <= k < row_of(es, r).len(),
    ensures
        exists|j: int|
            0 <= j < es.len() && #[trigger] es[j] == (
                r as i32,
                row_of(es, r)[k].0,
                row_of(es, r)[k].1,
            ) && es[j].2 != 0,
    decreases es.len(),
{
    let p = row_of(es.drop_last(), r);
    if es.last().0 == r && es.last().2 != 0 && k == p.len() {
        assert(row_of(es, r)[k] == (es.last().1, es.last().2));
        assert(es[es.len() - 1] == (r as i32, es.last().1, es.last().2));
    } else {
        lemma_row_of_source(es.drop_last(), r, k);
        let j = choose|j: int|
            0 <= j < es.drop_last().len() && #[trigger] es.drop_last()[j] == (
                r as i32,
                p[k].0,
                p[k].1,
            ) && es.drop_last()[j].2 != 0;
        assert(es[j] == (r as i32, row_of(es, r)[k].0, row_of(es, r)[k].1));
    }
}

/// Rows built from pair-distinct entries have distinct columns.
proof fn lemma_row_of_distinct(es: Seq<(i32, i32, i64)>, r: int)
    requires
        forall|j1: int, j2: int|
            0 <= j1 < j2 < es.len() ==> ((#[trigger] es[j1]).0, es[j1].1) != ((
            #[trigger] es[j2]).0, es[j2].1),
    ensures
        forall|k1: int, k2: int|
            0 <= k1 < k2 < row_of(es, r).len() ==> (#[trigger] row_of(es, r)[k1]).0 != (
            #[trigger] row_of(es, r)[k2]).0,
    decreases es.len(),
{
    if es.len() > 0 {
        lemma_row_of_distinct(es.drop_last(), r);
        let p = row_of(es.drop_last(), r);
        if es.last().0 == r && es.last().2 != 0 {
            assert forall|k1: int, k2: int|
                0 <= k1 < k2 < row_of(es, r).len() implies (#[trigger] row_of(es, r)[k1]).0 != (
            #[trigger] row_of(es, r)[k2]).0 by {
                if k2 == p.len() {
                    assert(row_of(es, r)[k2] == (es.last().1, es.last().2));
                    assert(row_of(es, r)[k1] == p[k1]);
                    if p[k1].0 == es.last().1 {
                        lemma_row_of_source(es.drop_last(), r, k1);
                        let j = choose|j: int|
                            0 <= j < es.drop_last().len() && #[trigger] es.drop_last()[j] == (
                                r as i32,
                                p[k1].0,
                                p[k1].1,
                            ) && es.drop_last()[j].2 != 0;
                        assert((es[j].0, es[j].1) == (es[es.len() - 1].0, es[es.len() - 1].1));
                        assert(false);
                    }
                } else {
                    assert(row_of(es, r)[k1] == p[k1] && row_of(es, r)[k2] == p[k2]);
                }
            }
        }
    }
}

/// An entry list with no nonzero entry at (r, c) holds zero there.
proof fn lemma_entries_val_absent(es: Seq<(i32, i32, i64)>, r: int, c: int)
    requires
        forall|j: int|
            0 <= j < es.len() ==> !(((#[trigger] es[j]).0 as int, es[j].1 as int) == (r, c)
                && es[j].2 != 0),
    ensures
        entries_val(es, r, c) == 0,
    decreases es.len(),
{
    if es.len() > 0 {
        assert(es[es.len() - 1] == es.last());
        lemma_entries_val_absent(es.drop_last(), r, c);
    }
}

/// A pair-distinct entry list holds its one nonzero entry at (r, c).
proof fn lemma_entries_val_present(es: Seq<(i32, i32, i64)>, j: int, r: int, c: int)
    requires
        0 <= j < es.len(),
        (es[j].0 as int, es[j].1 as int) == (r, c),
        es[j].2 != 0,
        forall|j1: int, j2: int|
            0 <= j1 < j2 < es.len() ==> ((#[trigger] es[j1]).0, es[j1].1) != ((
            #[trigger] es[j2]).0, es[j2].1),
    ensures
        entries_val(es, r, c) == es[j].2 as int,
    decreases es.len(),
{
    if j == es.len() - 1 {
        assert(es.last() == es[j]);
    } else {
        assert((es[j].0, es[j].1) != (es[es.len() - 1].0, es[es.len() - 1].1));
        assert(es.drop_last()[j] == es[j]);
        lemma_entries_val_present(es.drop_last(), j, r, c);
    }
}

/// The matrix built from the per-pair mean entries of a tag table holds
/// exactly the data model's values: the nonzero mean of each recorded
/// (item, tag) pair, zero everywhere else.
pub proof fn lemma_entries_val_is_mat_val(es: Seq<(i32, i32, i64)>, ts: Seq<TagV>, r: int, c: int)
    requires
        es.len() == tag_pairs(ts).len(),
        forall|j: int|
            0 <= j < es.len() ==> ((#[trigger] es[j]).0 as int, es[j].1 as int) == tag_pairs(
                ts,
            )[j] && es[j].2 as int == tag_mean_of(ts, es[j].0 as int, es[j].1 as int),
        forall|j1: int, j2: int|
            0 <= j1 < j2 < es.len() ==> ((#[trigger] es[j1]).0, es[j1].1) != ((
            #[trigger] es[j2]).0, es[j2].1),
    ensures
        entries_val(es, r, c) == mat_val(ts, r, c),
{
    let pairs = tag_pairs(ts);
    if pairs.contains((r, c)) {
        let j = choose|j: int| 0 <= j < pairs.len() && pairs[j] == (r, c);
        assert((es[j].0 as int, es[j].1 as int) == (r, c));
        assert(es[j].2 as int == tag_mean_of(ts, r, c));
        if tag_mean_of(ts, r, c) != 0 {
            lemma_entries_val_present(es, j, r, c);
        } else {
            assert forall|j2: int|
                0 <= j2 < es.len() implies !(((#[trigger] es[j2]).0 as int, es[j2].1 as int) == (
            r,
            c,
            ) && es[j2].2 != 0) by {
                if (es[j2].0 as int, es[j2].1 as int) == (r, c) {
                    if j2 != j {
                        lemma_tag_pairs_distinct(ts);
                        assert(pairs[j2] == (es[j2].0 as int, es[j2].1 as int));
                        assert(false);
                    }
                }
            }
            lemma_entries_val_absent(es, r, c);
        }
    } else {
        assert forall|j2: int|
            0 <= j2 < es.len() implies !(((#[trigger] es[j2]).0 as int, es[j2].1 as int) == (
        r,
        c,
        ) && es[j2].2 != 0) by {
            if (es[j2].0 as int, es[j2].1 as int) == (r, c) {
                assert(pairs[j2] == (r, c));
                assert(pairs.contains((r, c)));
                assert(false);
            }
        }
        lemma_entries_val_absent(es, r, c);
    }
}

/// Collects the row entries of one item: its nonzero means, in order.
fn collect_row(entries: &Vec<(i32, i32, i64)>, r: i32) -> (out: Vec<(i32, i64)>)
    ensures
        out@ =~= row_of(entries@, r as int),
{
    let ghost ev = entries@;
    let mut out: Vec<(i32, i64)> = Vec::new();
    let mut i: usize = 0;
    proof {
        assert(ev.take(0) =~= Seq::<(i32, i32, i64)>::empty());
    }
    while i < entries.len()
        invariant
            i <= ev.len(),
            ev == entries@,
            out@ =~= row_of(ev.take(i as int), r as int),
        decreases ev.len() - i,
    {
        proof {
            assert(ev.take(i as int + 1).drop_last() =~= ev.take(i as int));
            assert(ev.take(i as int + 1).last() == ev[i as int]);
        }
        let e = entries[i];
        if e.0 == r && e.2 != 0 {
            out.push((e.1, e.2));
        }
        i = i + 1;
    }
    proof {
        assert(ev.take(ev.len() as int) =~= ev);
    }
    out
}

/// Builds the sparse profile matrix from the (item, tag, mean) entries,
/// keeping the nonzero means; the matrix is sized by the largest item and
/// tag ids among them.
#[verifier::loop_isolation(false)]
pub fn build_matrix(entries: &Vec<(i32, i32, i64)>) -> (m: SparseMatrix)
    requires
        forall|j: int|
            0 <= j < entries@.len() ==> (#[trigger] entries@[j]).0 >= 0 && entries@[j].1 >= 0
                && -(crate::VMAX as int) <= entries@[j].2 <= crate::VMAX as int,
        forall|j1: int, j2: int|
            0 <= j1 < j2 < entries@.len() ==> ((#[trigger] entries@[j1]).0, entries@[j1].1) != ((
            #[trigger] entries@[j2]).0, entries@[j2].1),
    ensures
        m.wf(),
        m.rows@.len() == max_row_id(entries@) + 1,
        m.cols == max_col_id(entries@) + 1,
        forall|r: int, c: int| m.entry(r, c) == entries_val(entries@, r, c),
{
    let ghost ev = entries@;
    let mut max_r: i32 = 0;
    let mut max_c: i32 = 0;
    let mut i: usize = 0;
    proof {
        assert(ev.take(0) =~= Seq::<(i32, i32, i64)>::empty());
    }
    while i < entries.len()
        invariant
            i <= ev.len(),
            max_r as int == max_row_id(ev.take(i as int)),
            max_c as int == max_col_id(ev.take(i as int)),
            0 <= max_r,
            0 <= max_c,
        decreases ev.len() - i,
    {
        proof {
            assert(ev.take(i as int + 1).drop_last() =~= ev.take(i as int));
        }
        let e = entries[i];
        if e.2 != 0 {
            if e.0 > max_r {
                max_r = e.0;
            }
            if e.1 > max_c {
                max_c = e.1;
            }
        }
        i = i + 1;
    }
    proof {
        assert(ev.take(ev.len() as int) =~= ev);
    }
    let nrows: usize = (max_r as usize) + 1;
    let mut rows: Vec<Vec<(i32, i64)>> = Vec::new();
    let mut k: usize = 0;
    while k < nrows
        invariant
            k <= nrows,
            rows@.len() == k,
            forall|r: int| 0 <= r < k ==> (#[trigger] rows@[r])@ =~= row_of(ev, r),
        decreases nrows - k,
    {
        rows.push(collect_row(entries, k as i32));
        k = k + 1;
    }
    proof {
        assert forall|r: int, c: int|
            0 <= r < nrows implies #[trigger] row_val(rows@[r]@, c) == entries_val(ev, r, c) by {
            lemma_row_of_val(ev, r, c);
        }
        assert forall|r: int, k1: int, k2: int|
            0 <= r < nrows && 0 <= k1 < k2 < rows@[r]@.len() implies (#[trigger] rows@[r]@[k1]).0
            != (#[trigger] rows@[r]@[k2]).0 by {
            lemma_row_of_distinct(ev, r);
        }
        assert forall|r: int, k: int|
            0 <= r < nrows && 0 <= k < rows@[r]@.len() implies {
            let e = #[trigger] rows@[r]@[k];
            0 <= e.0 <= max_c && -(crate::VMAX as int) <= e.1 <= crate::VMAX as int && e.1 != 0
        } by {
            lemma_row_of_source(ev, r, k);
            let j = choose|j: int|
                0 <= j < ev.len() && #[trigger] ev[j] == (
                    r as i32,
                    row_of(ev, r)[k].0,
                    row_of(ev, r)[k].1,
                ) && ev[j].2 != 0;
            lemma_max_col_covers(ev, j);
        }
        assert forall|r: int, c: int|
            !(0 <= r < nrows) implies #[trigger] entries_val(ev, r, c) == 0 by {
            lemma_entries_val_out_of_range(ev, r, c);
        }
    }
    SparseMatrix { rows, cols: (max_c as usize) + 1 }
}

/// A nonzero entry's row id is covered by the maximum.
proof fn lemma_max_row_covers(es: Seq<(i32, i32, i64)>, j: int)
    requires
        0 <= j < es.len(),
        es[j].2 != 0,
    ensures
        max_row_id(es) >= es[j].0 as int,
        max_row_id(es) >= 0,
    decreases es.len(),
{
    if es.len() > 0 {
        if j < es.len() - 1 {
            assert(es.drop_last()[j] == es[j]);
            lemma_max_row_covers(es.drop_last(), j);
        }
        lemma_max_nonneg(es.drop_last());
    }
}

/// A nonzero entry's column id is covered by the maximum.
proof fn lemma_max_col_covers(es: Seq<(i32, i32, i64)>, j: int)
    requires
        0 <= j < es.len(),
        es[j].2 != 0,
    ensures
        max_col_id(es) >= es[j].1 as int,
        max_col_id(es) >= 0,
    decreases es.len(),
{
    if es.len() > 0 {
        if j < es.len() - 1 {
            assert(es.drop_last()[j] == es[j]);
            lemma_max_col_covers(es.drop_last(), j);
        }
        lemma_max_nonneg(es.drop_last());
    }
}

proof fn lemma_max_nonneg(es: Seq<(i32, i32, i64)>)
    ensures
        max_row_id(es) >= 0,
        max_col_id(es) >= 0,
    decreases es.len(),
{
    if es.len() > 0 {
        lemma_max_nonneg(es.drop_last());
    }
}

/// Rows beyond the stored range hold nothing.
proof fn lemma_entries_val_out_of_range(es: Seq<(i32, i32, i64)>, r: int, c: int)
    requires
        !(0 <= r <= max_row_id(es)),
        forall|j: int| 0 <= j < es.len() ==> (#[trigger] es[j]).0 >= 0,
    ensures
        entries_val(es, r, c) == 0,
    decreases es.len(),
{
    if es.len() > 0 {
        lemma_max_nonneg(es.drop_last());
        if es.last().0 == r && es.last().1 == c && es.last().2 != 0 {
            lemma_max_row_covers(es, es.len() - 1);
            assert(es[es.len() - 1].0 >= 0);
            assert(false);
        }
        assert(forall|j: int|
            0 <= j < es.drop_last().len() ==> (#[trigger] es.drop_last()[j]).0 >= 0);
        if !(0 <= r <= max_row_id(es.drop_last())) {
            lemma_entries_val_out_of_range(es.drop_last(), r, c);
        } else {
            let m = max_row_id(es.drop_last());
            assert(max_row_id(es) == if es.last().2 != 0 && es.last().0 > m {
                es.last().0 as int
            } else {
                m
            });
            assert(false);
        }
    }
}

} // verus!
