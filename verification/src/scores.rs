//! The three scorers: co-rating (collaborative), tag-profile cosine
//! similarity, and their weighted combination. Each scorer returns a score
//! map as a list of (item id, score) entries sorted by score descending
//! (ids ascending on ties), truncated to the result count; the two signal
//! scorers normalize into `[0, SCALE]` before handing the map out.

use vstd::prelude::*;
use vstd::set_lib::{lemma_int_range, lemma_len_subset, set_int_range};

use crate::data::{Rating, RatingV, Tag, TagV};
use crate::fixed::{clamp, div_trunc, div_trunc_i128, isqrt_u128, lemma_root_bound};
use crate::ingest::contains_i32;
use crate::matrix::{row_val, SparseMatrix};
use crate::ranking::{
    lemma_sort_contains, lemma_sort_entries, lemma_sort_keys_distinct, min_max_normalize,
    normalize_spec, sort_entries, sort_entries_exec, NORM_BOUND,
};

verus! {

/// Whether a user rated the seed item.
pub open spec fn is_rater(rs: Seq<RatingV>, seed: int, uid: int) -> bool {
    exists|k: int| 0 <= k < rs.len() && rs[k].vn_id == seed && rs[k].user_id == uid
}

/// The raw co-rating sum for `vn` over the first `k` records: transformed
/// ratings of `vn` given by raters of the seed.
pub open spec fn co_sum_prefix(rs: Seq<RatingV>, seed: int, vn: int, k: int) -> int
    decreases k,
{
    if k <= 0 {
        0
    } else {
        co_sum_prefix(rs, seed, vn, k - 1) + if rs[k - 1].vn_id == vn && is_rater(
            rs,
            seed,
            rs[k - 1].user_id,
        ) {
            rs[k - 1].rating
        } else {
            0
        }
    }
}

/// The raw co-rating score of `vn` for a seed.
pub open spec fn co_sum_for(rs: Seq<RatingV>, seed: int, vn: int) -> int {
    co_sum_prefix(rs, seed, vn, rs.len() as int)
}

/// The co-rated candidate ids over the first `k` records: items other than
/// the seed rated by a rater of the seed, in order of first appearance.
pub open spec fn co_ids_prefix(rs: Seq<RatingV>, seed: int, k: int) -> Seq<int>
    decreases k,
{
    if k <= 0 {
        Seq::<int>::empty()
    } else {
        let p = co_ids_prefix(rs, seed, k - 1);
        let r = rs[k - 1];
        if r.vn_id != seed && is_rater(rs, seed, r.user_id) && !p.contains(r.vn_id) {
            p.push(r.vn_id)
        } else {
            p
        }
    }
}

pub open spec fn co_ids(rs: Seq<RatingV>, seed: int) -> Seq<int> {
    co_ids_prefix(rs, seed, rs.len() as int)
}

/// The raw co-rating score map, in candidate order.
pub open spec fn co_raw_entries(rs: Seq<RatingV>, seed: int) -> Seq<(i32, i128)> {
    Seq::new(
        co_ids(rs, seed).len(),
        |i: int| (co_ids(rs, seed)[i] as i32, co_sum_for(rs, seed, co_ids(rs, seed)[i]) as i128),
    )
}

/// The first `n` entries (or all of them when fewer).
pub open spec fn take_n<A>(s: Seq<A>, n: int) -> Seq<A> {
    if n < s.len() {
        s.take(n)
    } else {
        s
    }
}

/// The co-rating score map of a seed: raw sums per co-rated item, sorted
/// descending (ids ascending on ties), top `n`, min-max normalized.
pub open spec fn co_scores_spec(rs: Seq<RatingV>, seed: int, n: int) -> Seq<(i32, i64)> {
    normalize_spec(take_n(sort_entries(co_raw_entries(rs, seed)), n))
}

/// Whether a user rated the seed item.
pub fn is_rater_exec(ratings: &Vec<Rating>, seed: i32, uid: i32) -> (r: bool)
    ensures
        r == is_rater(ratings.deep_view(), seed as int, uid as int),
{
    let ghost rv = ratings.deep_view();
    let mut k: usize = 0;
    while k < ratings.len()
        invariant
            k <= rv.len(),
            rv == ratings.deep_view(),
            forall|j: int|
                0 <= j < k ==> !((#[trigger] rv[j]).vn_id == seed as int && rv[j].user_id
                    == uid as int),
        decreases rv.len() - k,
    {
        let r = &ratings[k];
        if r.vn_id == seed && r.user_id == uid {
            proof {
                assert(rv[k as int] == ratings@[k as int]@);
                assert(rv[k as int].vn_id == seed as int && rv[k as int].user_id == uid as int);
            }
            return true;
        }
        proof {
            assert(rv[k as int] == ratings@[k as int]@);
        }
        k = k + 1;
    }
    false
}

/// The position of a key in a score accumulator, or its length if absent.
fn find_score_idx(acc: &Vec<(i32, i128)>, vn: i32) -> (j: usize)
    ensures
        j <= acc@.len(),
        forall|k: int| 0 <= k < j ==> (#[trigger] acc@[k]).0 != vn,
        j < acc@.len() ==> acc@[j as int].0 == vn,
{
    let mut j: usize = 0;
    while j < acc.len()
        invariant
            j <= acc@.len(),
            forall|k: int| 0 <= k < j ==> (#[trigger] acc@[k]).0 != vn,
        decreases acc@.len() - j,
    {
        if acc[j].0 == vn {
            return j;
        }
        j = j + 1;
    }
    j
}

/// The co-rating scorer: items rated by the raters of the seed, scored by
/// their summed transformed ratings, top `n` by score, normalized. The
/// seed never appears in its own result.
#[verifier::loop_isolation(false)]
pub fn co_rating_scores(ratings: &Vec<Rating>, seed: i32, n: usize) -> (out: Vec<(i32, i64)>)
    requires
        forall|k: int|
            0 <= k < ratings@.len() ==> -(crate::VMAX as int) <= (#[trigger] ratings@[k]).rating
                <= crate::VMAX as int,
    ensures
        out@ =~= co_scores_spec(ratings.deep_view(), seed as int, n as int),
        out@.len() <= n,
        forall|k: int|
            0 <= k < out@.len() ==> (#[trigger] out@[k]).0 != seed && 0 <= out@[k].1
                <= crate::SCALE,
        forall|k1: int, k2: int|
            0 <= k1 < k2 < out@.len() ==> (#[trigger] out@[k1]).0 != (#[trigger] out@[k2]).0,
{
    let ghost rv = ratings.deep_view();
    let mut acc: Vec<(i32, i128)> = Vec::new();
    let mut i: usize = 0;
    while i < ratings.len()
        invariant
            i <= rv.len(),
            acc@.len() == co_ids_prefix(rv, seed as int, i as int).len(),
            forall|j: int|
                0 <= j < acc@.len() ==> (#[trigger] acc@[j]).0 as int == co_ids_prefix(
                    rv,
                    seed as int,
                    i as int,
                )[j] && acc@[j].1 as int == co_sum_prefix(
                    rv,
                    seed as int,
                    acc@[j].0 as int,
                    i as int,
                ),
            forall|j: int|
                0 <= j < acc@.len() ==> -((i as int) * (crate::VMAX as int)) <= (
                #[trigger] acc@[j]).1 as int <= (i as int) * (crate::VMAX as int),
            forall|j1: int, j2: int|
                0 <= j1 < j2 < acc@.len() ==> (#[trigger] acc@[j1]).0 != (#[trigger] acc@[j2]).0,
            forall|j: int| 0 <= j < acc@.len() ==> (#[trigger] acc@[j]).0 != seed,
        decreases rv.len() - i,
    {
        proof {
            assert(rv[i as int] == ratings@[i as int]@);
        }
        let r_vn = ratings[i].vn_id;
        let r_uid = ratings[i].user_id;
        let r_val = ratings[i].rating;
        let ghost pids = co_ids_prefix(rv, seed as int, i as int);
        if r_vn != seed && is_rater_exec(ratings, seed, r_uid) {
            let j = find_score_idx(&acc, r_vn);
            if j < acc.len() {
                proof {
                    assert(pids[j as int] == r_vn as int);
                    assert(pids.contains(r_vn as int));
                    assert(co_ids_prefix(rv, seed as int, i as int + 1) == pids);
                    assert((i as int) * (crate::VMAX as int) + (crate::VMAX as int) == (i as int
                        + 1) * (crate::VMAX as int)) by (nonlinear_arith);
                    assert((i as int + 1) * (crate::VMAX as int) <= 0x1_0000_0000_0000_0000
                        * (crate::VMAX as int)) by (nonlinear_arith)
                        requires
                            i as int + 1 <= 0x1_0000_0000_0000_0000,
                    ;
                    assert((i as int) * (crate::VMAX as int) <= (i as int + 1) * (
                    crate::VMAX as int)) by (nonlinear_arith);
                }
                let e = acc[j];
                acc[j] = (r_vn, e.1 + r_val as i128);
            } else {
                proof {
                    assert forall|m: int| 0 <= m < pids.len() implies pids[m] != r_vn as int by {
                        assert(acc@[m].0 as int == pids[m]);
                        assert(acc@[m].0 != r_vn);
                    }
                    assert(!pids.contains(r_vn as int));
                    assert(co_ids_prefix(rv, seed as int, i as int + 1) == pids.push(
                        r_vn as int,
                    ));
                    lemma_co_sum_unseen(rv, seed as int, r_vn as int, i as int);
                }
                acc.push((r_vn, r_val as i128));
            }
        } else {
            proof {
                assert(co_ids_prefix(rv, seed as int, i as int + 1) == pids);
            }
        }
        i = i + 1;
    }
    let ghost raw = co_raw_entries(rv, seed as int);
    proof {
        assert(acc@ =~= raw);
        lemma_sort_entries(acc@);
        lemma_sort_keys_distinct(acc@);
        assert forall|k: int|
            0 <= k < sort_entries(acc@).len() implies (#[trigger] sort_entries(acc@)[k]).0
            != seed && -((rv.len() as int) * (crate::VMAX as int)) <= sort_entries(acc@)[k].1
            <= (rv.len() as int) * (crate::VMAX as int) by {
            let e = sort_entries(acc@)[k];
            assert(sort_entries(acc@).contains(e));
            lemma_sort_contains(acc@, e);
            let j = choose|j: int| 0 <= j < acc@.len() && acc@[j] == e;
        }
        assert((rv.len() as int) * (crate::VMAX as int) <= 0x1_0000_0000_0000_0000 * (
        crate::VMAX as int)) by (nonlinear_arith)
            requires
                rv.len() as int <= 0x1_0000_0000_0000_0000,
        ;
    }
    let sorted = sort_entries_exec(acc);
    let mut top = sorted;
    top.truncate(n);
    proof {
        assert(top@ =~= take_n(sort_entries(raw), n as int));
        assert forall|k: int|
            0 <= k < top@.len() implies -NORM_BOUND <= (#[trigger] top@[k]).1 <= NORM_BOUND
            && top@[k].0 != seed by {
            assert(top@[k] == sort_entries(raw)[k]);
        }
        assert forall|k1: int, k2: int|
            0 <= k1 < k2 < top@.len() implies (#[trigger] top@[k1]).0 != (
        #[trigger] top@[k2]).0 by {
            assert(top@[k1] == sort_entries(raw)[k1] && top@[k2] == sort_entries(raw)[k2]);
        }
    }
    let out = min_max_normalize(&top);
    proof {
        assert forall|k: int|
            0 <= k < out@.len() implies (#[trigger] out@[k]).0 != seed by {
            assert(out@[k].0 == top@[k].0);
        }
    }
    out
}

/// The sum of squared weights of a sparse row.
pub open spec fn row_sumsq(row: Seq<(i32, i64)>) -> int
    decreases row.len(),
{
    if row.len() == 0 {
        0
    } else {
        row_sumsq(row.drop_last()) + row.last().1 * row.last().1
    }
}

/// The dot product of two sparse rows: each entry of the first against the
/// matching column of the second.
pub open spec fn dot_rows(a: Seq<(i32, i64)>, b: Seq<(i32, i64)>) -> int
    decreases a.len(),
{
    if a.len() == 0 {
        0
    } else {
        dot_rows(a.drop_last(), b) + a.last().1 * row_val(b, a.last().0 as int)
    }
}

/// The integer square root (floor) of a non-negative number.
pub open spec fn sqrt_floor(x: int) -> int {
    choose|r: int| r >= 0 && #[trigger] (r * r) <= x && x < (r + 1) * (r + 1)
}

pub proof fn lemma_sqrt_floor_is(x: int, r: int)
    requires
        r >= 0,
        r * r <= x,
        x < (r + 1) * (r + 1),
    ensures
        sqrt_floor(x) == r,
{
    let r2 = sqrt_floor(x);
    assert(r2 >= 0 && r2 * r2 <= x && x < (r2 + 1) * (r2 + 1)) by {
        assert(r >= 0 && r * r <= x && x < (r + 1) * (r + 1));
    }
    if r < r2 {
        assert((r + 1) * (r + 1) <= r2 * r2) by (nonlinear_arith)
            requires
                0 <= r + 1 <= r2,
        ;
    }
    if r2 < r {
        assert((r2 + 1) * (r2 + 1) <= r * r) by (nonlinear_arith)
            requires
                0 <= r2 + 1 <= r,
        ;
    }
}

/// The fixed-point cosine similarity of two sparse rows: their dot product
/// over the product of their magnitudes, saturated into `[-SCALE, SCALE]`.
pub open spec fn sim_of(a: Seq<(i32, i64)>, b: Seq<(i32, i64)>) -> int {
    clamp(
        div_trunc(
            dot_rows(a, b) * (crate::SCALE as int),
            sqrt_floor(row_sumsq(a)) * sqrt_floor(row_sumsq(b)),
        ),
        crate::SCALE as int,
    )
}

/// The tag-similarity candidates over the first `k` tag records: distinct
/// item ids with tag data, other than the seed and within the matrix rows,
/// in order of first appearance.
pub open spec fn tag_cand_prefix(ts: Seq<TagV>, seed: int, rows: int, k: int) -> Seq<int>
    decreases k,
{
    if k <= 0 {
        Seq::<int>::empty()
    } else {
        let p = tag_cand_prefix(ts, seed, rows, k - 1);
        let id = ts[k - 1].vn_id;
        if id != seed && 0 <= id < rows && !p.contains(id) {
            p.push(id)
        } else {
            p
        }
    }
}

pub open spec fn tag_cands(ts: Seq<TagV>, seed: int, rows: int) -> Seq<int> {
    tag_cand_prefix(ts, seed, rows, ts.len() as int)
}

/// The similarity entries of the first `k` candidates, skipping candidates
/// whose profile vector has zero magnitude.
pub open spec fn tag_sims_prefix(
    cands: Seq<int>,
    rows: Seq<Seq<(i32, i64)>>,
    seed_row: Seq<(i32, i64)>,
    k: int,
) -> Seq<(i32, i128)>
    decreases k,
{
    if k <= 0 {
        Seq::<(i32, i128)>::empty()
    } else {
        let p = tag_sims_prefix(cands, rows, seed_row, k - 1);
        let id = cands[k - 1];
        if row_sumsq(rows[id]) > 0 {
            p.push((id as i32, sim_of(seed_row, rows[id]) as i128))
        } else {
            p
        }
    }
}

pub open spec fn tag_sims(cands: Seq<int>, rows: Seq<Seq<(i32, i64)>>, seed_row: Seq<(i32, i64)>) -> Seq<
    (i32, i128),
> {
    tag_sims_prefix(cands, rows, seed_row, cands.len() as int)
}

/// The sparse rows of a matrix, as sequences.
pub open spec fn rows_view(m: &SparseMatrix) -> Seq<Seq<(i32, i64)>> {
    Seq::new(m.rows@.len() as nat, |r: int| m.rows@[r]@)
}

/// The tag-similarity score map of a seed: empty when the seed has no
/// matrix row or a zero-magnitude profile; otherwise the cosine similarity
/// of every candidate with a nonzero profile, sorted descending (ids
/// ascending on ties), top `n`, min-max normalized.
pub open spec fn tag_scores_spec(ts: Seq<TagV>, mrows: Seq<Seq<(i32, i64)>>, seed: int, n: int) -> Seq<
    (i32, i64),
> {
    if !(0 <= seed < mrows.len()) {
        Seq::<(i32, i64)>::empty()
    } else if row_sumsq(mrows[seed]) == 0 {
        Seq::<(i32, i64)>::empty()
    } else {
        normalize_spec(
            take_n(
                sort_entries(tag_sims(tag_cands(ts, seed, mrows.len() as int), mrows, mrows[seed])),
                n,
            ),
        )
    }
}

/// A row with distinct columns within `[0, cols)` has at most `cols`
/// entries.
pub proof fn lemma_row_len_bound(row: Seq<(i32, i64)>, cols: int)
    requires
        cols >= 0,
        forall|k: int| 0 <= k < row.len() ==> 0 <= (#[trigger] row[k]).0 < cols,
        forall|k1: int, k2: int|
            0 <= k1 < k2 < row.len() ==> (#[trigger] row[k1]).0 != (#[trigger] row[k2]).0,
    ensures
        row.len() <= cols,
{
    let colseq = row.map_values(|e: (i32, i64)| e.0 as int);
    assert(colseq.no_duplicates()) by {
        assert forall|i: int, j: int|
            0 <= i < colseq.len() && 0 <= j < colseq.len() && i != j implies colseq[i]
            != colseq[j] by {
            if i < j {
                assert(row[i].0 != row[j].0);
            } else {
                assert(row[j].0 != row[i].0);
            }
        }
    }
    colseq.unique_seq_to_set();
    assert(colseq.to_set().subset_of(set_int_range(0, cols))) by {
        assert forall|x: int| colseq.to_set().contains(x) implies set_int_range(
            0,
            cols,
        ).contains(x) by {
            let i = choose|i: int| 0 <= i < colseq.len() && colseq[i] == x;
            assert(0 <= row[i].0 < cols);
        }
    }
    lemma_int_range(0, cols);
    lemma_len_subset(colseq.to_set(), set_int_range(0, cols));
}

/// Computes the sum of squared weights of a sparse row.
#[verifier::loop_isolation(false)]
fn row_sumsq_exec(row: &Vec<(i32, i64)>) -> (s: i128)
    requires
        row@.len() <= 0x8000_0000,
        forall|k: int|
            0 <= k < row@.len() ==> -(crate::VMAX as int) <= (#[trigger] row@[k]).1
                <= crate::VMAX as int,
    ensures
        s == row_sumsq(row@),
        0 <= s <= 0x8000_0000 * (crate::VMAX as int) * (crate::VMAX as int),
{
    let mut s: i128 = 0;
    let mut k: usize = 0;
    proof {
        assert(row@.take(0) =~= Seq::<(i32, i64)>::empty());
    }
    while k < row.len()
        invariant
            k <= row@.len(),
            s == row_sumsq(row@.take(k as int)),
            0 <= s <= (k as int) * (crate::VMAX as int) * (crate::VMAX as int),
        decreases row@.len() - k,
    {
        proof {
            assert(row@.take(k as int + 1).drop_last() =~= row@.take(k as int));
            assert(row@.take(k as int + 1).last() == row@[k as int]);
            let v = row@[k as int].1 as int;
            assert(0 <= v * v <= (crate::VMAX as int) * (crate::VMAX as int)) by (nonlinear_arith)
                requires
                    -(crate::VMAX as int) <= v <= crate::VMAX as int,
            ;
            assert((k as int) * (crate::VMAX as int) * (crate::VMAX as int) + (crate::VMAX as int)
                * (crate::VMAX as int) == (k as int + 1) * (crate::VMAX as int) * (
            crate::VMAX as int)) by (nonlinear_arith);
            assert((k as int + 1) * (crate::VMAX as int) * (crate::VMAX as int) <= 0x8000_0000 * (
            crate::VMAX as int) * (crate::VMAX as int)) by (nonlinear_arith)
                requires
                    k as int + 1 <= 0x8000_0000,
            ;
        }
        let v = row[k].1;
        s = s + (v as i128) * (v as i128);
        k = k + 1;
    }
    proof {
        assert(row@.take(row@.len() as int) =~= row@);
    }
    s
}

/// The weight a sparse row holds at a column (zero when absent).
fn row_lookup(b: &Vec<(i32, i64)>, c: i32) -> (v: i64)
    requires
        forall|k: int|
            0 <= k < b@.len() ==> -(crate::VMAX as int) <= (#[trigger] b@[k]).1
                <= crate::VMAX as int,
    ensures
        v as int == row_val(b@, c as int),
        -(crate::VMAX as int) <= v <= crate::VMAX as int,
{
    let mut cur: i64 = 0;
    let mut k: usize = 0;
    while k < b.len()
        invariant
            k <= b@.len(),
            cur as int == row_val(b@.take(k as int), c as int),
            -(crate::VMAX as int) <= cur <= crate::VMAX as int,
            forall|j: int|
                0 <= j < b@.len() ==> -(crate::VMAX as int) <= (#[trigger] b@[j]).1
                    <= crate::VMAX as int,
        decreases b@.len() - k,
    {
        proof {
            assert(b@.take(k as int + 1).drop_last() =~= b@.take(k as int));
            assert(b@.take(k as int + 1).last() == b@[k as int]);
        }
        if b[k].0 == c {
            cur = b[k].1;
        }
        k = k + 1;
    }
    proof {
        assert(b@.take(b@.len() as int) =~= b@);
    }
    cur
}

/// Computes the dot product of two sparse rows.
#[verifier::loop_isolation(false)]
fn dot_exec(a: &Vec<(i32, i64)>, b: &Vec<(i32, i64)>) -> (d: i128)
    requires
        a@.len() <= 0x8000_0000,
        forall|k: int|
            0 <= k < a@.len() ==> -(crate::VMAX as int) <= (#[trigger] a@[k]).1
                <= crate::VMAX as int,
        forall|k: int|
            0 <= k < b@.len() ==> -(crate::VMAX as int) <= (#[trigger] b@[k]).1
                <= crate::VMAX as int,
    ensures
        d == dot_rows(a@, b@),
        -(0x8000_0000 * (crate::VMAX as int) * (crate::VMAX as int)) <= d <= 0x8000_0000 * (
        crate::VMAX as int) * (crate::VMAX as int),
{
    let mut d: i128 = 0;
    let mut k: usize = 0;
    proof {
        assert(a@.take(0) =~= Seq::<(i32, i64)>::empty());
    }
    while k < a.len()
        invariant
            k <= a@.len(),
            d == dot_rows(a@.take(k as int), b@),
            -((k as int) * (crate::VMAX as int) * (crate::VMAX as int)) <= d <= (k as int) * (
            crate::VMAX as int) * (crate::VMAX as int),
        decreases a@.len() - k,
    {
        proof {
            assert(a@.take(k as int + 1).drop_last() =~= a@.take(k as int));
            assert(a@.take(k as int + 1).last() == a@[k as int]);
        }
        let v = a[k].1;
        let w = row_lookup(b, a[k].0);
        proof {
            assert(-((crate::VMAX as int) * (crate::VMAX as int)) <= (v as int) * (w as int) <= (
            crate::VMAX as int) * (crate::VMAX as int)) by (nonlinear_arith)
                requires
                    -(crate::VMAX as int) <= v as int <= crate::VMAX as int,
                    -(crate::VMAX as int) <= w as int <= crate::VMAX as int,
            ;
            assert((k as int) * (crate::VMAX as int) * (crate::VMAX as int) + (crate::VMAX as int)
                * (crate::VMAX as int) == (k as int + 1) * (crate::VMAX as int) * (
            crate::VMAX as int)) by (nonlinear_arith);
            assert((k as int + 1) * (crate::VMAX as int) * (crate::VMAX as int) <= 0x8000_0000 * (
            crate::VMAX as int) * (crate::VMAX as int)) by (nonlinear_arith)
                requires
                    k as int + 1 <= 0x8000_0000,
            ;
        }
        d = d + (v as i128) * (w as i128);
        k = k + 1;
    }
    proof {
        assert(a@.take(a@.len() as int) =~= a@);
    }
    d
}

/// Collects the tag-similarity candidates of a seed: distinct item ids
/// with tag data, other than the seed, within the matrix rows.
#[verifier::loop_isolation(false)]
fn tag_candidates(tags: &Vec<Tag>, seed: i32, nrows: usize) -> (out: Vec<i32>)
    requires
        nrows <= 0x8000_0000,
    ensures
        out@.len() == tag_cands(tags.deep_view(), seed as int, nrows as int).len(),
        forall|j: int|
            0 <= j < out@.len() ==> (#[trigger] out@[j]) as int == tag_cands(
                tags.deep_view(),
                seed as int,
                nrows as int,
            )[j],
        forall|j: int|
            0 <= j < out@.len() ==> (#[trigger] out@[j]) != seed && 0 <= out@[j]
                && (out@[j] as int) < nrows as int,
        forall|j1: int, j2: int|
            0 <= j1 < j2 < out@.len() ==> (#[trigger] out@[j1]) != (#[trigger] out@[j2]),
{
    let ghost tv = tags.deep_view();
    let mut out: Vec<i32> = Vec::new();
    let mut i: usize = 0;
    while i < tags.len()
        invariant
            i <= tv.len(),
            out@.len() == tag_cand_prefix(tv, seed as int, nrows as int, i as int).len(),
            forall|j: int|
                0 <= j < out@.len() ==> (#[trigger] out@[j]) as int == tag_cand_prefix(
                    tv,
                    seed as int,
                    nrows as int,
                    i as int,
                )[j],
            forall|j: int|
                0 <= j < out@.len() ==> (#[trigger] out@[j]) != seed && 0 <= out@[j]
                    && (out@[j] as int) < nrows as int,
            forall|j1: int, j2: int|
                0 <= j1 < j2 < out@.len() ==> (#[trigger] out@[j1]) != (#[trigger] out@[j2]),
        decreases tv.len() - i,
    {
        proof {
            assert(tv[i as int] == tags@[i as int]@);
        }
        let id = tags[i].vn_id;
        let ghost p = tag_cand_prefix(tv, seed as int, nrows as int, i as int);
        if id != seed && id >= 0 && (id as usize) < nrows {
            if !contains_i32(&out, id) {
                proof {
                    assert forall|m: int| 0 <= m < p.len() implies p[m] != id as int by {
                        assert(out@[m] as int == p[m]);
                        assert(out@[m] != id);
                    }
                    assert(!p.contains(id as int));
                    assert(tag_cand_prefix(tv, seed as int, nrows as int, i as int + 1)
                        == p.push(id as int));
                }
                out.push(id);
            } else {
                proof {
                    let m = choose|m: int| 0 <= m < out@.len() && out@[m] == id;
                    assert(p[m] == id as int);
                    assert(p.contains(id as int));
                    assert(tag_cand_prefix(tv, seed as int, nrows as int, i as int + 1) == p);
                }
            }
        } else {
            proof {
                assert(tag_cand_prefix(tv, seed as int, nrows as int, i as int + 1) == p);
            }
        }
        i = i + 1;
    }
    out
}

/// The tag-similarity scorer: cosine similarity of the seed's profile
/// vector against every candidate's, top `n` by similarity, normalized.
/// Empty when the seed has no matrix row or a zero-magnitude profile. The
/// seed never appears in its own result.
#[verifier::loop_isolation(false)]
pub fn tag_similarity_scores(tags: &Vec<Tag>, m: &SparseMatrix, seed: i32, n: usize) -> (out: Vec<
    (i32, i64),
>)
    requires
        m.wf(),
    ensures
        out@ =~= tag_scores_spec(tags.deep_view(), rows_view(m), seed as int, n as int),
        out@.len() <= n,
        forall|k: int|
            0 <= k < out@.len() ==> (#[trigger] out@[k]).0 != seed && 0 <= out@[k].1
                <= crate::SCALE,
        forall|k1: int, k2: int|
            0 <= k1 < k2 < out@.len() ==> (#[trigger] out@[k1]).0 != (#[trigger] out@[k2]).0,
{
    let ghost tv = tags.deep_view();
    let ghost mrows = rows_view(m);
    let empty_out: Vec<(i32, i64)> = Vec::new();
    if seed < 0 || (seed as usize) >= m.rows.len() {
        proof {
            assert(empty_out@ =~= tag_scores_spec(tv, mrows, seed as int, n as int));
        }
        return empty_out;
    }
    let seed_row: &Vec<(i32, i64)> = &m.rows[seed as usize];
    proof {
        assert(seed_row@ == mrows[seed as int]);
        lemma_row_len_bound(seed_row@, m.cols as int);
    }
    let ssq_a = row_sumsq_exec(seed_row);
    if ssq_a == 0 {
        proof {
            assert(empty_out@ =~= tag_scores_spec(tv, mrows, seed as int, n as int));
        }
        return empty_out;
    }
    let mag_a: u128 = isqrt_u128(ssq_a as u128);
    proof {
        lemma_sqrt_floor_is(ssq_a as int, mag_a as int);
        assert(mag_a >= 1) by {
            if mag_a == 0 {
                assert((mag_a as int + 1) * (mag_a as int + 1) == 1) by (nonlinear_arith)
                    requires
                        mag_a == 0,
                ;
            }
        }
        lemma_root_bound(mag_a as int, ssq_a as int, 0x100_0000_0000_0000);
    }
    let cands = tag_candidates(tags, seed, m.rows.len());
    let ghost candsv = tag_cands(tv, seed as int, mrows.len() as int);
    let mut acc: Vec<(i32, i128)> = Vec::new();
    let mut j: usize = 0;
    while j < cands.len()
        invariant
            j <= candsv.len(),
            acc@ =~= tag_sims_prefix(candsv, mrows, seed_row@, j as int),
            forall|p: int|
                0 <= p < acc@.len() ==> (#[trigger] acc@[p]).0 != seed && -(crate::SCALE as int)
                    <= acc@[p].1 <= crate::SCALE as int,
            forall|p: int|
                0 <= p < acc@.len() ==> exists|mi: int|
                    0 <= mi < j && candsv[mi] == (#[trigger] acc@[p]).0 as int,
            forall|p1: int, p2: int|
                0 <= p1 < p2 < acc@.len() ==> (#[trigger] acc@[p1]).0 != (#[trigger] acc@[p2]).0,
        decreases candsv.len() - j,
    {
        let id = cands[j];
        let ghost prev = acc@;
        let row: &Vec<(i32, i64)> = &m.rows[id as usize];
        proof {
            assert(row@ == mrows[id as int]);
            lemma_row_len_bound(row@, m.cols as int);
        }
        let ssq_b = row_sumsq_exec(row);
        if ssq_b > 0 {
            let mag_b: u128 = isqrt_u128(ssq_b as u128);
            proof {
                lemma_sqrt_floor_is(ssq_b as int, mag_b as int);
                assert(mag_b >= 1) by {
                    if mag_b == 0 {
                        assert((mag_b as int + 1) * (mag_b as int + 1) == 1) by (nonlinear_arith)
                            requires
                                mag_b == 0,
                        ;
                    }
                }
                lemma_root_bound(mag_b as int, ssq_b as int, 0x100_0000_0000_0000);
                assert((mag_a as int) * (mag_b as int) >= 1) by (nonlinear_arith)
                    requires
                        mag_a >= 1 && mag_b >= 1,
                ;
                assert((mag_a as int) * (mag_b as int) < 0x100_0000_0000_0000
                    * 0x100_0000_0000_0000) by (nonlinear_arith)
                    requires
                        1 <= mag_a < 0x100_0000_0000_0000 && 1 <= mag_b < 0x100_0000_0000_0000,
                ;
            }
            let dot = dot_exec(seed_row, row);
            let num: i128 = dot * 1000;
            let den: i128 = (mag_a as i128) * (mag_b as i128);
            let q = div_trunc_i128(num, den);
            let sim: i128 = if q > 1000 {
                1000
            } else if q < -1000 {
                -1000
            } else {
                q
            };
            proof {
                assert(sim as int == sim_of(seed_row@, row@));
            }
            acc.push((id, sim));
            proof {
                assert(acc@ =~= prev.push((id, sim)));
                assert forall|p1: int, p2: int|
                    0 <= p1 < p2 < acc@.len() implies (#[trigger] acc@[p1]).0 != (
                #[trigger] acc@[p2]).0 by {
                    if p2 == prev.len() {
                        let mi = choose|mi: int|
                            0 <= mi < j && candsv[mi] == (acc@[p1]).0 as int;
                        assert(candsv[mi] == cands@[mi] as int);
                        assert(candsv[j as int] == cands@[j as int] as int);
                        assert(cands@[mi] != cands@[j as int]);
                        assert(id == cands@[j as int]);
                    }
                }
            }
        }
        j = j + 1;
    }
    let ghost raw = tag_sims(candsv, mrows, seed_row@);
    proof {
        assert(acc@ =~= raw);
        lemma_sort_entries(acc@);
        lemma_sort_keys_distinct(acc@);
        assert forall|k: int|
            0 <= k < sort_entries(acc@).len() implies (#[trigger] sort_entries(acc@)[k]).0
            != seed && -(crate::SCALE as int) <= sort_entries(acc@)[k].1
            <= crate::SCALE as int by {
            let e = sort_entries(acc@)[k];
            assert(sort_entries(acc@).contains(e));
            lemma_sort_contains(acc@, e);
            let p = choose|p: int| 0 <= p < acc@.len() && acc@[p] == e;
        }
    }
    let sorted = sort_entries_exec(acc);
    let mut top = sorted;
    top.truncate(n);
    proof {
        assert(top@ =~= take_n(sort_entries(raw), n as int));
        assert forall|k: int|
            0 <= k < top@.len() implies -NORM_BOUND <= (#[trigger] top@[k]).1 <= NORM_BOUND
            && top@[k].0 != seed by {
            assert(top@[k] == sort_entries(raw)[k]);
        }
        assert forall|k1: int, k2: int|
            0 <= k1 < k2 < top@.len() implies (#[trigger] top@[k1]).0 != (
        #[trigger] top@[k2]).0 by {
            assert(top@[k1] == sort_entries(raw)[k1] && top@[k2] == sort_entries(raw)[k2]);
        }
    }
    let out = min_max_normalize(&top);
    proof {
        assert forall|k: int|
            0 <= k < out@.len() implies (#[trigger] out@[k]).0 != seed by {
            assert(out@[k].0 == top@[k].0);
        }
    }
    out
}

/// The score a map holds for an id (zero when absent; the last entry wins,
/// though score maps carry distinct keys).
pub open spec fn score_of(s: Seq<(i32, i64)>, id: i32) -> int
    decreases s.len(),
{
    if s.len() == 0 {
        0
    } else if s.last().0 == id {
        s.last().1 as int
    } else {
        score_of(s.drop_last(), id)
    }
}

/// Whether a score map holds an id.
pub open spec fn has_key(s: Seq<(i32, i64)>, id: i32) -> bool {
    exists|k: int| 0 <= k < s.len() && (#[trigger] s[k]).0 == id
}

/// The entries of `t` whose ids are absent from `u`, in order.
pub open spec fn t_only(t: Seq<(i32, i64)>, u: Seq<(i32, i64)>) -> Seq<(i32, i64)>
    decreases t.len(),
{
    if t.len() == 0 {
        Seq::<(i32, i64)>::empty()
    } else {
        let p = t_only(t.drop_last(), u);
        if has_key(u, t.last().0) {
            p
        } else {
            p.push(t.last())
        }
    }
}

/// The weighted merge of the two normalized score maps: every id of either
/// map, valued `vote_weight * its co-rating score + tag_weight * its tag
/// score`, a missing score contributing zero.
pub open spec fn merge_weighted(u: Seq<(i32, i64)>, t: Seq<(i32, i64)>, vw: int, tw: int) -> Seq<
    (i32, i128),
> {
    Seq::new(u.len(), |i: int| (u[i].0, (u[i].1 * vw + score_of(t, u[i].0) * tw) as i128))
        + Seq::new(t_only(t, u).len(), |i: int| (t_only(t, u)[i].0, (t_only(t, u)[i].1 * tw) as i128))
}

/// The combined score map: the weighted merge, sorted descending (ids
/// ascending on ties), top `n`; not re-normalized.
pub open spec fn combined_spec(u: Seq<(i32, i64)>, t: Seq<(i32, i64)>, vw: int, tw: int, n: int) -> Seq<
    (i32, i64),
> {
    let s = take_n(sort_entries(merge_weighted(u, t, vw, tw)), n);
    Seq::new(s.len(), |i: int| (s[i].0, s[i].1 as i64))
}

/// The score a map holds for an id.
pub fn lookup_score(t: &Vec<(i32, i64)>, id: i32) -> (v: i64)
    requires
        forall|k: int| 0 <= k < t@.len() ==> 0 <= (#[trigger] t@[k]).1 <= crate::SCALE,
    ensures
        v as int == score_of(t@, id),
        0 <= v <= crate::SCALE,
{
    let mut cur: i64 = 0;
    let mut k: usize = 0;
    while k < t.len()
        invariant
            k <= t@.len(),
            cur as int == score_of(t@.take(k as int), id),
            0 <= cur <= crate::SCALE,
            forall|j: int| 0 <= j < t@.len() ==> 0 <= (#[trigger] t@[j]).1 <= crate::SCALE,
        decreases t@.len() - k,
    {
        proof {
            assert(t@.take(k as int + 1).drop_last() =~= t@.take(k as int));
            assert(t@.take(k as int + 1).last() == t@[k as int]);
        }
        if t[k].0 == id {
            cur = t[k].1;
        }
        k = k + 1;
    }
    proof {
        assert(t@.take(t@.len() as int) =~= t@);
    }
    cur
}

/// Whether a score map holds an id.
pub fn has_key_exec(u: &Vec<(i32, i64)>, id: i32) -> (r: bool)
    ensures
        r == has_key(u@, id),
{
    let mut k: usize = 0;
    while k < u.len()
        invariant
            k <= u@.len(),
            forall|j: int| 0 <= j < k ==> (#[trigger] u@[j]).0 != id,
        decreases u@.len() - k,
    {
        if u[k].0 == id {
            return true;
        }
        k = k + 1;
    }
    false
}

/// Every entry kept from `t` is an entry of `t` with an id absent from `u`.
pub proof fn lemma_t_only_src(t: Seq<(i32, i64)>, u: Seq<(i32, i64)>, k: int)
    requires
        0 <= k < t_only(t, u).len(),
    ensures
        exists|j: int| 0 <= j < t.len() && #[trigger] t[j] == t_only(t, u)[k],
        !has_key(u, t_only(t, u)[k].0),
    decreases t.len(),
{
    let p = t_only(t.drop_last(), u);
    if !has_key(u, t.last().0) && k == p.len() {
        assert(t[t.len() - 1] == t_only(t, u)[k]);
    } else {
        lemma_t_only_src(t.drop_last(), u, k);
        let j = choose|j: int|
            0 <= j < t.drop_last().len() && #[trigger] t.drop_last()[j] == t_only(
                t.drop_last(),
                u,
            )[k];
        assert(t[j] == t_only(t, u)[k]);
    }
}

/// Entries kept from a distinct-key `t` keep distinct keys.
proof fn lemma_t_only_distinct(t: Seq<(i32, i64)>, u: Seq<(i32, i64)>)
    requires
        forall|j1: int, j2: int|
            0 <= j1 < j2 < t.len() ==> (#[trigger] t[j1]).0 != (#[trigger] t[j2]).0,
    ensures
        forall|k1: int, k2: int|
            0 <= k1 < k2 < t_only(t, u).len() ==> (#[trigger] t_only(t, u)[k1]).0 != (
            #[trigger] t_only(t, u)[k2]).0,
    decreases t.len(),
{
    if t.len() > 0 {
        assert(forall|j1: int, j2: int|
            0 <= j1 < j2 < t.drop_last().len() ==> (#[trigger] t.drop_last()[j1]).0 != (
            #[trigger] t.drop_last()[j2]).0);
        lemma_t_only_distinct(t.drop_last(), u);
        let p = t_only(t.drop_last(), u);
        if !has_key(u, t.last().0) {
            assert forall|k1: int, k2: int|
                0 <= k1 < k2 < t_only(t, u).len() implies (#[trigger] t_only(t, u)[k1]).0 != (
            #[trigger] t_only(t, u)[k2]).0 by {
                if k2 == p.len() {
                    assert(t_only(t, u)[k2] == t.last());
                    assert(t_only(t, u)[k1] == p[k1]);
                    lemma_t_only_src(t.drop_last(), u, k1);
                    let j = choose|j: int|
                        0 <= j < t.drop_last().len() && #[trigger] t.drop_last()[j] == p[k1];
                    assert(t[j] == p[k1]);
                    assert(t[j].0 != t[t.len() - 1].0);
                } else {
                    assert(t_only(t, u)[k1] == p[k1] && t_only(t, u)[k2] == p[k2]);
                }
            }
        }
    }
}

/// The combined scorer: for every item in either normalized map,
/// `vote_weight * co-rating score + tag_weight * tag score`, sorted
/// descending (ids ascending on ties), top `n`, not re-normalized.
#[verifier::loop_isolation(false)]
pub fn combine_scores(
    u: &Vec<(i32, i64)>,
    t: &Vec<(i32, i64)>,
    vote_weight: i64,
    tag_weight: i64,
    n: usize,
) -> (out: Vec<(i32, i64)>)
    requires
        forall|k: int| 0 <= k < u@.len() ==> 0 <= (#[trigger] u@[k]).1 <= crate::SCALE,
        forall|k: int| 0 <= k < t@.len() ==> 0 <= (#[trigger] t@[k]).1 <= crate::SCALE,
        forall|k1: int, k2: int|
            0 <= k1 < k2 < u@.len() ==> (#[trigger] u@[k1]).0 != (#[trigger] u@[k2]).0,
        forall|k1: int, k2: int|
            0 <= k1 < k2 < t@.len() ==> (#[trigger] t@[k1]).0 != (#[trigger] t@[k2]).0,
        -(crate::VMAX as int) <= vote_weight <= crate::VMAX as int,
        -(crate::VMAX as int) <= tag_weight <= crate::VMAX as int,
    ensures
        out@ =~= combined_spec(
            u@,
            t@,
            vote_weight as int,
            tag_weight as int,
            n as int,
        ),
        out@.len() <= n,
        forall|k1: int, k2: int|
            0 <= k1 < k2 < out@.len() ==> (#[trigger] out@[k1]).0 != (#[trigger] out@[k2]).0,
{
    let ghost vw = vote_weight as int;
    let ghost tw = tag_weight as int;
    let ghost bound: int = 2 * (crate::VMAX as int) * (crate::SCALE as int);
    let mut acc: Vec<(i32, i128)> = Vec::new();
    let mut k: usize = 0;
    let ghost upart = Seq::new(
        u@.len(),
        |i: int| (u@[i].0, (u@[i].1 * vw + score_of(t@, u@[i].0) * tw) as i128),
    );
    while k < u.len()
        invariant
            k <= u@.len(),
            acc@.len() == k,
            forall|j: int| 0 <= j < k ==> (#[trigger] acc@[j]) == upart[j],
            forall|j: int|
                0 <= j < k ==> -bound <= (#[trigger] acc@[j]).1 <= bound,
        decreases u@.len() - k,
    {
        let uv = u[k].1;
        let tv = lookup_score(t, u[k].0);
        proof {
            assert(-((crate::VMAX as int) * (crate::SCALE as int)) <= (uv as int) * vw <= (
            crate::VMAX as int) * (crate::SCALE as int)) by (nonlinear_arith)
                requires
                    0 <= uv as int <= crate::SCALE as int,
                    -(crate::VMAX as int) <= vw <= crate::VMAX as int,
            ;
            assert(-((crate::VMAX as int) * (crate::SCALE as int)) <= (tv as int) * tw <= (
            crate::VMAX as int) * (crate::SCALE as int)) by (nonlinear_arith)
                requires
                    0 <= tv as int <= crate::SCALE as int,
                    -(crate::VMAX as int) <= tw <= crate::VMAX as int,
            ;
        }
        let val: i128 = (uv as i128) * (vote_weight as i128) + (tv as i128) * (
        tag_weight as i128);
        acc.push((u[k].0, val));
        k = k + 1;
    }
    let ghost tpart = Seq::new(
        t_only(t@, u@).len(),
        |i: int| (t_only(t@, u@)[i].0, (t_only(t@, u@)[i].1 * tw) as i128),
    );
    let mut k: usize = 0;
    proof {
        assert(t@.take(0) =~= Seq::<(i32, i64)>::empty());
        assert(acc@ =~= upart + Seq::new(
            t_only(t@.take(0), u@).len(),
            |i: int| (t_only(t@.take(0), u@)[i].0, (t_only(t@.take(0), u@)[i].1 * tw) as i128),
        ));
    }
    while k < t.len()
        invariant
            k <= t@.len(),
            acc@ =~= upart + Seq::new(
                t_only(t@.take(k as int), u@).len(),
                |i: int|
                    (
                        t_only(t@.take(k as int), u@)[i].0,
                        (t_only(t@.take(k as int), u@)[i].1 * tw) as i128,
                    ),
            ),
            forall|j: int|
                0 <= j < acc@.len() ==> -bound <= (#[trigger] acc@[j]).1 <= bound,
        decreases t@.len() - k,
    {
        proof {
            assert(t@.take(k as int + 1).drop_last() =~= t@.take(k as int));
            assert(t@.take(k as int + 1).last() == t@[k as int]);
        }
        let id = t[k].0;
        if !has_key_exec(u, id) {
            let tv = t[k].1;
            proof {
                assert(-((crate::VMAX as int) * (crate::SCALE as int)) <= (tv as int) * tw <= (
                crate::VMAX as int) * (crate::SCALE as int)) by (nonlinear_arith)
                    requires
                        0 <= tv as int <= crate::SCALE as int,
                        -(crate::VMAX as int) <= tw <= crate::VMAX as int,
                ;
            }
            let val: i128 = (tv as i128) * (tag_weight as i128);
            acc.push((id, val));
        }
        k = k + 1;
    }
    proof {
        assert(t@.take(t@.len() as int) =~= t@);
        assert(acc@ =~= merge_weighted(u@, t@, vw, tw));
        lemma_t_only_distinct(t@, u@);
        assert forall|j1: int, j2: int|
            0 <= j1 < j2 < acc@.len() implies (#[trigger] acc@[j1]).0 != (
        #[trigger] acc@[j2]).0 by {
            let ul = u@.len() as int;
            if j1 < ul && j2 >= ul {
                lemma_t_only_src(t@, u@, j2 - ul);
                assert(acc@[j2].0 == t_only(t@, u@)[j2 - ul].0);
                assert(acc@[j1].0 == u@[j1].0);
                if acc@[j1].0 == acc@[j2].0 {
                    assert(has_key(u@, t_only(t@, u@)[j2 - ul].0));
                    assert(false);
                }
            } else if j1 >= ul {
                assert(acc@[j1].0 == t_only(t@, u@)[j1 - ul].0);
                assert(acc@[j2].0 == t_only(t@, u@)[j2 - ul].0);
            } else {
                assert(acc@[j1].0 == u@[j1].0 && acc@[j2].0 == u@[j2].0);
            }
        }
        lemma_sort_entries(acc@);
        lemma_sort_keys_distinct(acc@);
        assert forall|j: int|
            0 <= j < sort_entries(acc@).len() implies -bound <= (#[trigger] sort_entries(
            acc@,
        )[j]).1 <= bound by {
            let e = sort_entries(acc@)[j];
            assert(sort_entries(acc@).contains(e));
            lemma_sort_contains(acc@, e);
            let p = choose|p: int| 0 <= p < acc@.len() && acc@[p] == e;
        }
    }
    let ghost merged = merge_weighted(u@, t@, vw, tw);
    let sorted = sort_entries_exec(acc);
    let mut top = sorted;
    top.truncate(n);
    proof {
        assert(top@ =~= take_n(sort_entries(merged), n as int));
        assert forall|j: int|
            0 <= j < top@.len() implies -bound <= (#[trigger] top@[j]).1 <= bound by {
            assert(top@[j] == sort_entries(merged)[j]);
        }
    }
    let mut out: Vec<(i32, i64)> = Vec::new();
    let mut k: usize = 0;
    while k < top.len()
        invariant
            k <= top@.len(),
            out@.len() == k,
            forall|j: int|
                0 <= j < k ==> (#[trigger] out@[j]) == (top@[j].0, top@[j].1 as i64),
        decreases top@.len() - k,
    {
        let e = top[k];
        out.push((e.0, e.1 as i64));
        k = k + 1;
    }
    proof {
        assert forall|k1: int, k2: int|
            0 <= k1 < k2 < out@.len() implies (#[trigger] out@[k1]).0 != (
        #[trigger] out@[k2]).0 by {
            assert(out@[k1].0 == take_n(sort_entries(merged), n as int)[k1].0);
            assert(out@[k2].0 == take_n(sort_entries(merged), n as int)[k2].0);
            assert(take_n(sort_entries(merged), n as int)[k1] == sort_entries(merged)[k1]);
            assert(take_n(sort_entries(merged), n as int)[k2] == sort_entries(merged)[k2]);
        }
    }
    out
}

/// An id outside the candidate prefix has a zero prefix sum.
proof fn lemma_co_sum_unseen(rs: Seq<RatingV>, seed: int, vn: int, k: int)
    requires
        0 <= k <= rs.len(),
        vn != seed,
        !co_ids_prefix(rs, seed, k).contains(vn),
    ensures
        co_sum_prefix(rs, seed, vn, k) == 0,
    decreases k,
{
    if k > 0 {
        let p = co_ids_prefix(rs, seed, k - 1);
        let r = rs[k - 1];
        if r.vn_id != seed && is_rater(rs, seed, r.user_id) && !p.contains(r.vn_id) {
            assert forall|m: int| 0 <= m < p.len() implies p[m] != vn by {
                assert(p.push(r.vn_id)[m] == p[m]);
            }
            assert(!p.contains(vn));
            if r.vn_id == vn {
                assert(p.push(r.vn_id)[p.len() as int] == vn);
                assert(co_ids_prefix(rs, seed, k).contains(vn));
                assert(false);
            }
        } else {
            if r.vn_id == vn && is_rater(rs, seed, r.user_id) {
                assert(p.contains(r.vn_id));
                assert(false);
            }
        }
        lemma_co_sum_unseen(rs, seed, vn, k - 1);
    }
}

} // verus!
