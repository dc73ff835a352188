//! Derived aggregates over the record tables: the mean rating of each
//! rated item and the mean weight of each (item, tag) pair, both as
//! association lists keyed in order of first appearance.

use vstd::prelude::*;

use crate::data::{Rating, RatingV, Tag, TagV};
use crate::fixed::{div_trunc, div_trunc_i128};

verus! {

/// Sum of the ratings an item received.
pub open spec fn sum_rating_for(rs: Seq<RatingV>, vn: int) -> int
    decreases rs.len(),
{
    if rs.len() == 0 {
        0
    } else {
        sum_rating_for(rs.drop_last(), vn) + if rs.last().vn_id == vn {
            rs.last().rating
        } else {
            0
        }
    }
}

/// How many ratings an item received.
pub open spec fn count_rating_for(rs: Seq<RatingV>, vn: int) -> int
    decreases rs.len(),
{
    if rs.len() == 0 {
        0
    } else {
        count_rating_for(rs.drop_last(), vn) + if rs.last().vn_id == vn {
            1int
        } else {
            0int
        }
    }
}

/// The rated item ids, in order of first appearance.
pub open spec fn rated_ids(rs: Seq<RatingV>) -> Seq<int>
    decreases rs.len(),
{
    if rs.len() == 0 {
        Seq::<int>::empty()
    } else {
        let p = rated_ids(rs.drop_last());
        if p.contains(rs.last().vn_id) {
            p
        } else {
            p.push(rs.last().vn_id)
        }
    }
}

/// An id is among the rated ids exactly when some record rates it.
pub proof fn lemma_rated_ids_iff(rs: Seq<RatingV>, vn: int)
    ensures
        rated_ids(rs).contains(vn) <==> exists|k: int| 0 <= k < rs.len() && rs[k].vn_id == vn,
    decreases rs.len(),
{
    if rs.len() > 0 {
        lemma_rated_ids_iff(rs.drop_last(), vn);
        if rated_ids(rs).contains(vn) {
            if rs.last().vn_id == vn {
                assert(rs[rs.len() - 1].vn_id == vn);
            } else {
                assert(rated_ids(rs.drop_last()).contains(vn));
                let k = choose|k: int| 0 <= k < rs.len() - 1 && rs.drop_last()[k].vn_id == vn;
                assert(rs[k].vn_id == vn);
            }
        }
        if exists|k: int| 0 <= k < rs.len() && rs[k].vn_id == vn {
            let k = choose|k: int| 0 <= k < rs.len() && rs[k].vn_id == vn;
            if k < rs.len() - 1 {
                assert(rs.drop_last()[k].vn_id == vn);
                let p = rated_ids(rs.drop_last());
                assert(p.contains(vn));
                if !p.contains(rs.last().vn_id) {
                    let j = choose|j: int| 0 <= j < p.len() && p[j] == vn;
                    assert(p.push(rs.last().vn_id)[j] == vn);
                }
            } else {
                let p = rated_ids(rs.drop_last());
                if !p.contains(vn) {
                    assert(p.push(vn)[p.len() as int] == vn);
                }
            }
        }
    }
}

/// A mean of values within `[-v, v]` stays within `[-v, v]`.
pub proof fn lemma_avg_bound(s: int, c: int, v: int)
    requires
        c >= 1,
        v >= 0,
        -(c * v) <= s <= c * v,
    ensures
        -v <= div_trunc(s, c) <= v,
{
    if s >= 0 {
        vstd::arithmetic::div_mod::lemma_div_is_ordered(s, c * v, c);
        vstd::arithmetic::div_mod::lemma_div_multiples_vanish(v, c);
        vstd::arithmetic::div_mod::lemma_div_pos_is_pos(s, c);
    } else {
        vstd::arithmetic::div_mod::lemma_div_is_ordered(-s, c * v, c);
        vstd::arithmetic::div_mod::lemma_div_multiples_vanish(v, c);
        vstd::arithmetic::div_mod::lemma_div_pos_is_pos(-s, c);
    }
}

/// The mean rating of an item (rated ids only).
pub open spec fn avg_rating_of(rs: Seq<RatingV>, vn: int) -> int {
    div_trunc(sum_rating_for(rs, vn), count_rating_for(rs, vn))
}

/// The position of a key in the accumulator, or its length if absent.
fn find_key_idx(acc: &Vec<(i32, i128, u64)>, vn: i32) -> (j: usize)
    ensures
        j <= acc@.len(),
        forall|k: int| 0 <= k < j ==> (#[trigger] acc@[k]).0 != vn,
        j < acc@.len() ==> acc@[j as int].0 == vn,
{
    let mut j: usize = 0;
    while j < acc.len()
        invariant
            j <= acc@.len(),
            forall|k: int| 0 <= k < j ==> (#[trigger] acc@[k]).0 != vn,
        decreases acc@.len() - j,
    {
        if acc[j].0 == vn {
            return j;
        }
        j = j + 1;
    }
    j
}

/// Computes the per-item mean ratings, keyed in order of first appearance.
#[verifier::loop_isolation(false)]
pub fn compute_average_ratings(ratings: &Vec<Rating>) -> (out: Vec<(i32, i64)>)
    requires
        forall|k: int|
            0 <= k < ratings@.len() ==> -(crate::VMAX as int) <= (#[trigger] ratings@[k]).rating
                <= crate::VMAX as int,
    ensures
        out@.len() == rated_ids(ratings.deep_view()).len(),
        forall|j: int|
            0 <= j < out@.len() ==> (#[trigger] out@[j]).0 as int == rated_ids(
                ratings.deep_view(),
            )[j] && out@[j].1 as int == avg_rating_of(ratings.deep_view(), out@[j].0 as int) && -(
            crate::VMAX as int) <= out@[j].1 <= crate::VMAX as int,
        forall|j1: int, j2: int|
            0 <= j1 < j2 < out@.len() ==> (#[trigger] out@[j1]).0 != (#[trigger] out@[j2]).0,
{
    let ghost rv = ratings.deep_view();
    let mut acc: Vec<(i32, i128, u64)> = Vec::new();
    let mut i: usize = 0;
    proof {
        assert(rv.take(0) =~= Seq::<RatingV>::empty());
    }
    while i < ratings.len()
        invariant
            i <= ratings@.len(),
            acc@.len() == rated_ids(rv.take(i as int)).len(),
            forall|j: int|
                0 <= j < acc@.len() ==> (#[trigger] acc@[j]).0 as int == rated_ids(
                    rv.take(i as int),
                )[j] && acc@[j].1 as int == sum_rating_for(rv.take(i as int), acc@[j].0 as int)
                    && acc@[j].2 as int == count_rating_for(rv.take(i as int), acc@[j].0 as int),
            forall|j: int|
                0 <= j < acc@.len() ==> 1 <= (#[trigger] acc@[j]).2 <= i && -(acc@[j].2 as int
                    * (crate::VMAX as int)) <= acc@[j].1 as int <= acc@[j].2 as int * (
                crate::VMAX as int),
            forall|j1: int, j2: int|
                0 <= j1 < j2 < acc@.len() ==> (#[trigger] acc@[j1]).0 != (#[trigger] acc@[j2]).0,
        decreases ratings@.len() - i,
    {
        proof {
            assert(rv.take(i as int + 1).drop_last() =~= rv.take(i as int));
            assert(rv.take(i as int + 1).last() == rv[i as int]);
            assert(rv[i as int] == ratings@[i as int]@);
        }
        let vn = ratings[i].vn_id;
        let val = ratings[i].rating;
        let j = find_key_idx(&acc, vn);
        let ghost prev = rv.take(i as int);
        let ghost cur = rv.take(i as int + 1);
        if j < acc.len() {
            proof {
                assert(rated_ids(prev)[j as int] == vn as int);
                assert(rated_ids(prev).contains(vn as int));
                assert(rated_ids(cur) == rated_ids(prev));
                let c = acc@[j as int].2 as int;
                assert((c + 1) * (crate::VMAX as int) == c * (crate::VMAX as int) + (
                crate::VMAX as int)) by (nonlinear_arith);
                assert((i as int + 1) * (crate::VMAX as int) <= 0x1_0000_0000_0000_0000
                    * (crate::VMAX as int)) by (nonlinear_arith)
                    requires
                        i as int + 1 <= 0x1_0000_0000_0000_0000,
                ;
                assert(c * (crate::VMAX as int) <= (i as int) * (crate::VMAX as int))
                    by (nonlinear_arith)
                    requires
                        c <= i as int,
                ;
            }
            let e = acc[j];
            acc[j] = (vn, e.1 + val as i128, e.2 + 1);
        } else {
            proof {
                assert forall|m: int| 0 <= m < rated_ids(prev).len() implies rated_ids(
                    prev,
                )[m] != vn as int by {
                    assert(acc@[m].0 as int == rated_ids(prev)[m]);
                    assert(acc@[m].0 != vn);
                }
                assert(!rated_ids(prev).contains(vn as int));
                assert(rated_ids(cur) == rated_ids(prev).push(vn as int));
                assert(sum_rating_for(prev, vn as int) == 0 && count_rating_for(prev, vn as int)
                    == 0) by {
                    lemma_unseen_key_zero(prev, vn as int);
                }
            }
            acc.push((vn, val as i128, 1));
        }
        i = i + 1;
    }
    proof {
        assert(rv.take(ratings@.len() as int) =~= rv);
    }
    let mut out: Vec<(i32, i64)> = Vec::new();
    let mut j: usize = 0;
    while j < acc.len()
        invariant
            j <= acc@.len(),
            out@.len() == j,
            forall|k: int|
                0 <= k < j ==> (#[trigger] out@[k]).0 == acc@[k].0 && out@[k].1 as int
                    == avg_rating_of(rv, acc@[k].0 as int) && -(crate::VMAX as int) <= out@[k].1
                    <= crate::VMAX as int,
        decreases acc@.len() - j,
    {
        let e = acc[j];
        proof {
            lemma_avg_bound(e.1 as int, e.2 as int, crate::VMAX as int);
        }
        let avg = div_trunc_i128(e.1, e.2 as i128);
        out.push((e.0, avg as i64));
        j = j + 1;
    }
    out
}

/// Sum of the weights one (item, tag) pair received.
pub open spec fn sum_tag_for(ts: Seq<TagV>, vn: int, tag: int) -> int
    decreases ts.len(),
{
    if ts.len() == 0 {
        0
    } else {
        sum_tag_for(ts.drop_last(), vn, tag) + if ts.last().vn_id == vn && ts.last().tag_id
            == tag {
            ts.last().rating
        } else {
            0
        }
    }
}

/// How many weights one (item, tag) pair received.
pub open spec fn count_tag_for(ts: Seq<TagV>, vn: int, tag: int) -> int
    decreases ts.len(),
{
    if ts.len() == 0 {
        0
    } else {
        count_tag_for(ts.drop_last(), vn, tag) + if ts.last().vn_id == vn && ts.last().tag_id
            == tag {
            1int
        } else {
            0int
        }
    }
}

/// The (item, tag) pairs with weights, in order of first appearance.
pub open spec fn tag_pairs(ts: Seq<TagV>) -> Seq<(int, int)>
    decreases ts.len(),
{
    if ts.len() == 0 {
        Seq::<(int, int)>::empty()
    } else {
        let p = tag_pairs(ts.drop_last());
        let key = (ts.last().vn_id, ts.last().tag_id);
        if p.contains(key) {
            p
        } else {
            p.push(key)
        }
    }
}

/// A pair is among the tag pairs exactly when some record carries it.
pub proof fn lemma_tag_pairs_iff(ts: Seq<TagV>, vn: int, tag: int)
    ensures
        tag_pairs(ts).contains((vn, tag)) <==> exists|k: int|
            0 <= k < ts.len() && ts[k].vn_id == vn && ts[k].tag_id == tag,
    decreases ts.len(),
{
    if ts.len() > 0 {
        lemma_tag_pairs_iff(ts.drop_last(), vn, tag);
        let p = tag_pairs(ts.drop_last());
        let key = (ts.last().vn_id, ts.last().tag_id);
        if tag_pairs(ts).contains((vn, tag)) {
            if key == (vn, tag) {
                assert(ts[ts.len() - 1].vn_id == vn && ts[ts.len() - 1].tag_id == tag);
            } else {
                if !p.contains(key) {
                    let j = choose|j: int|
                        0 <= j < p.push(key).len() && p.push(key)[j] == (vn, tag);
                    assert(p[j] == (vn, tag));
                }
                let k = choose|k: int|
                    0 <= k < ts.len() - 1 && ts.drop_last()[k].vn_id == vn
                        && ts.drop_last()[k].tag_id == tag;
                assert(ts[k].vn_id == vn && ts[k].tag_id == tag);
            }
        }
        if exists|k: int| 0 <= k < ts.len() && ts[k].vn_id == vn && ts[k].tag_id == tag {
            let k = choose|k: int|
                0 <= k < ts.len() && ts[k].vn_id == vn && ts[k].tag_id == tag;
            if k < ts.len() - 1 {
                assert(ts.drop_last()[k].vn_id == vn && ts.drop_last()[k].tag_id == tag);
                assert(p.contains((vn, tag)));
                if !p.contains(key) {
                    let j = choose|j: int| 0 <= j < p.len() && p[j] == (vn, tag);
                    assert(p.push(key)[j] == (vn, tag));
                }
            } else {
                if !p.contains(key) {
                    assert(p.push(key)[p.len() as int] == key);
                }
            }
        }
    }
}

/// A pair no record carries has zero sum and zero count.
proof fn lemma_unseen_pair_zero(ts: Seq<TagV>, vn: int, tag: int)
    requires
        !tag_pairs(ts).contains((vn, tag)),
    ensures
        sum_tag_for(ts, vn, tag) == 0,
        count_tag_for(ts, vn, tag) == 0,
    decreases ts.len(),
{
    if ts.len() > 0 {
        let p = tag_pairs(ts.drop_last());
        let key = (ts.last().vn_id, ts.last().tag_id);
        if p.contains(key) {
            assert(!p.contains((vn, tag)));
        } else {
            assert forall|k: int| 0 <= k < p.len() implies p[k] != (vn, tag) by {
                assert(p.push(key)[k] == p[k]);
            }
            assert(!p.contains((vn, tag)));
        }
        lemma_unseen_pair_zero(ts.drop_last(), vn, tag);
        if ts.last().vn_id == vn && ts.last().tag_id == tag {
            lemma_tag_pairs_iff(ts, vn, tag);
            assert(ts[ts.len() - 1].vn_id == vn && ts[ts.len() - 1].tag_id == tag);
            assert(false);
        }
    }
}

/// The mean weight of an (item, tag) pair (recorded pairs only).
pub open spec fn tag_mean_of(ts: Seq<TagV>, vn: int, tag: int) -> int {
    div_trunc(sum_tag_for(ts, vn, tag), count_tag_for(ts, vn, tag))
}

/// The position of a pair key in the accumulator, or its length if absent.
fn find_pair_idx(acc: &Vec<(i32, i32, i128, u64)>, vn: i32, tag: i32) -> (j: usize)
    ensures
        j <= acc@.len(),
        forall|k: int|
            0 <= k < j ==> ((#[trigger] acc@[k]).0, acc@[k].1) != (vn, tag),
        j < acc@.len() ==> acc@[j as int].0 == vn && acc@[j as int].1 == tag,
{
    let mut j: usize = 0;
    while j < acc.len()
        invariant
            j <= acc@.len(),
            forall|k: int|
                0 <= k < j ==> ((#[trigger] acc@[k]).0, acc@[k].1) != (vn, tag),
        decreases acc@.len() - j,
    {
        if acc[j].0 == vn && acc[j].1 == tag {
            return j;
        }
        j = j + 1;
    }
    j
}

/// Computes the per-(item, tag) mean weights, keyed in order of first
/// appearance.
#[verifier::loop_isolation(false)]
pub fn compute_tag_means(tags: &Vec<Tag>) -> (out: Vec<(i32, i32, i64)>)
    requires
        forall|k: int|
            0 <= k < tags@.len() ==> -(crate::VMAX as int) <= (#[trigger] tags@[k]).rating
                <= crate::VMAX as int && tags@[k].vn_id >= 0 && tags@[k].tag_id >= 0,
    ensures
        forall|j: int|
            0 <= j < out@.len() ==> (#[trigger] out@[j]).0 >= 0 && out@[j].1 >= 0,
        out@.len() == tag_pairs(tags.deep_view()).len(),
        forall|j: int|
            0 <= j < out@.len() ==> ((#[trigger] out@[j]).0 as int, out@[j].1 as int) == tag_pairs(
                tags.deep_view(),
            )[j] && out@[j].2 as int == tag_mean_of(
                tags.deep_view(),
                out@[j].0 as int,
                out@[j].1 as int,
            ) && -(crate::VMAX as int) <= out@[j].2 <= crate::VMAX as int,
        forall|j1: int, j2: int|
            0 <= j1 < j2 < out@.len() ==> ((#[trigger] out@[j1]).0, out@[j1].1) != ((
            #[trigger] out@[j2]).0, out@[j2].1),
{
    let ghost tv = tags.deep_view();
    let mut acc: Vec<(i32, i32, i128, u64)> = Vec::new();
    let mut i: usize = 0;
    proof {
        assert(tv.take(0) =~= Seq::<TagV>::empty());
    }
    while i < tags.len()
        invariant
            i <= tags@.len(),
            acc@.len() == tag_pairs(tv.take(i as int)).len(),
            forall|j: int|
                0 <= j < acc@.len() ==> ((#[trigger] acc@[j]).0 as int, acc@[j].1 as int)
                    == tag_pairs(tv.take(i as int))[j] && acc@[j].2 as int == sum_tag_for(
                    tv.take(i as int),
                    acc@[j].0 as int,
                    acc@[j].1 as int,
                ) && acc@[j].3 as int == count_tag_for(
                    tv.take(i as int),
                    acc@[j].0 as int,
                    acc@[j].1 as int,
                ),
            forall|j: int|
                0 <= j < acc@.len() ==> 1 <= (#[trigger] acc@[j]).3 <= i && -(acc@[j].3 as int
                    * (crate::VMAX as int)) <= acc@[j].2 as int <= acc@[j].3 as int * (
                crate::VMAX as int),
            forall|j1: int, j2: int|
                0 <= j1 < j2 < acc@.len() ==> ((#[trigger] acc@[j1]).0, acc@[j1].1) != ((
                #[trigger] acc@[j2]).0, acc@[j2].1),
            forall|j: int| 0 <= j < acc@.len() ==> (#[trigger] acc@[j]).0 >= 0 && acc@[j].1 >= 0,
        decreases tags@.len() - i,
    {
        proof {
            assert(tv.take(i as int + 1).drop_last() =~= tv.take(i as int));
            assert(tv.take(i as int + 1).last() == tv[i as int]);
            assert(tv[i as int] == tags@[i as int]@);
        }
        let vn = tags[i].vn_id;
        let tag = tags[i].tag_id;
        let val = tags[i].rating;
        let j = find_pair_idx(&acc, vn, tag);
        let ghost prev = tv.take(i as int);
        let ghost cur = tv.take(i as int + 1);
        if j < acc.len() {
            proof {
                assert(tag_pairs(prev)[j as int] == (vn as int, tag as int));
                assert(tag_pairs(prev).contains((vn as int, tag as int)));
                assert(tag_pairs(cur) == tag_pairs(prev));
                let c = acc@[j as int].3 as int;
                assert((c + 1) * (crate::VMAX as int) == c * (crate::VMAX as int) + (
                crate::VMAX as int)) by (nonlinear_arith);
                assert((i as int + 1) * (crate::VMAX as int) <= 0x1_0000_0000_0000_0000
                    * (crate::VMAX as int)) by (nonlinear_arith)
                    requires
                        i as int + 1 <= 0x1_0000_0000_0000_0000,
                ;
                assert(c * (crate::VMAX as int) <= (i as int) * (crate::VMAX as int))
                    by (nonlinear_arith)
                    requires
                        c <= i as int,
                ;
            }
            let e = acc[j];
            acc[j] = (vn, tag, e.2 + val as i128, e.3 + 1);
        } else {
            proof {
                assert forall|m: int| 0 <= m < tag_pairs(prev).len() implies tag_pairs(
                    prev,
                )[m] != (vn as int, tag as int) by {
                    assert((acc@[m].0 as int, acc@[m].1 as int) == tag_pairs(prev)[m]);
                    assert((acc@[m].0, acc@[m].1) != (vn, tag));
                }
                assert(!tag_pairs(prev).contains((vn as int, tag as int)));
                assert(tag_pairs(cur) == tag_pairs(prev).push((vn as int, tag as int)));
                lemma_unseen_pair_zero(prev, vn as int, tag as int);
            }
            acc.push((vn, tag, val as i128, 1));
        }
        i = i + 1;
    }
    proof {
        assert(tv.take(tags@.len() as int) =~= tv);
    }
    let mut out: Vec<(i32, i32, i64)> = Vec::new();
    let mut j: usize = 0;
    while j < acc.len()
        invariant
            j <= acc@.len(),
            out@.len() == j,
            forall|k: int|
                0 <= k < j ==> (#[trigger] out@[k]).0 == acc@[k].0 && out@[k].1 == acc@[k].1
                    && out@[k].2 as int == tag_mean_of(tv, acc@[k].0 as int, acc@[k].1 as int)
                    && -(crate::VMAX as int) <= out@[k].2 <= crate::VMAX as int && out@[k].0 >= 0
                    && out@[k].1 >= 0,
        decreases acc@.len() - j,
    {
        let e = acc[j];
        proof {
            lemma_avg_bound(e.2 as int, e.3 as int, crate::VMAX as int);
        }
        let mean = div_trunc_i128(e.2, e.3 as i128);
        out.push((e.0, e.1, mean as i64));
        j = j + 1;
    }
    out
}

/// A key no record carries has zero sum and zero count.
proof fn lemma_unseen_key_zero(rs: Seq<RatingV>, vn: int)
    requires
        !rated_ids(rs).contains(vn),
    ensures
        sum_rating_for(rs, vn) == 0,
        count_rating_for(rs, vn) == 0,
    decreases rs.len(),
{
    if rs.len() > 0 {
        let p = rated_ids(rs.drop_last());
        if p.contains(rs.last().vn_id) {
            assert(!p.contains(vn));
        } else {
            assert forall|k: int| 0 <= k < p.len() implies p[k] != vn by {
                assert(p.push(rs.last().vn_id)[k] == p[k]);
            }
            assert(!p.contains(vn));
        }
        lemma_unseen_key_zero(rs.drop_last(), vn);
        if rs.last().vn_id == vn {
            lemma_rated_ids_iff(rs, vn);
            assert(rs[rs.len() - 1].vn_id == vn);
            assert(false);
        }
    }
}

} // verus!
