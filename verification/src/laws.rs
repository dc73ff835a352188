//! Cross-cutting properties of the engine, stated and proved over the
//! same spec functions the public contracts use.

use vstd::prelude::*;

use crate::data::{RatingV, TitleV};
use crate::ingest::{tag_of_record, tags_of_records};
use crate::matrix::mat_val;
use crate::ranking::sort_entries;
use crate::scores::{
    co_ids, co_ids_prefix, co_raw_entries, co_scores_spec, combined_spec, has_key, is_rater,
    lemma_t_only_src, merge_weighted, score_of, t_only, take_n,
};
use crate::ranking::{lemma_sort_contains, lemma_sort_entries, normalize_spec};
use crate::text::parse_uint_spec;
use crate::title::{lemma_find_first_at, pred_en, resolve_title_spec};

verus! {

/// Resolving an id whose only title record is an English-language one
/// returns that record's title verbatim.
pub proof fn lemma_english_title_round_trip(ts: Seq<TitleV>, vn: int, k: int)
    requires
        0 <= k < ts.len(),
        ts[k].vn_id == vn,
        ts[k].language == "en"@,
        forall|j: int| 0 <= j < ts.len() && j != k ==> (#[trigger] ts[j]).vn_id != vn,
    ensures
        resolve_title_spec(ts, vn) == ts[k].title,
{
    assert forall|j: int| 0 <= j < k implies !(pred_en(vn))(#[trigger] ts[j]) by {
        assert(ts[j].vn_id != vn);
    }
    lemma_find_first_at(ts, pred_en(vn), k);
}

/// Whether a tag source record carries a tag id in the ignore set.
pub open spec fn record_ignored(rec: Seq<Seq<char>>, ignore: Seq<i32>) -> bool {
    &&& rec.len() >= 5
    &&& rec[1].len() >= 1
    &&& match parse_uint_spec(rec[1].skip(1), i32::MAX as int) {
        Some(tid) => ignore.contains(tid as i32),
        None => false,
    }
}

/// The tag source records with ignored tag ids removed, in order.
pub open spec fn drop_ignored(recs: Seq<Seq<Seq<char>>>, ignore: Seq<i32>) -> Seq<Seq<Seq<char>>>
    decreases recs.len(),
{
    if recs.len() == 0 {
        Seq::<Seq<Seq<char>>>::empty()
    } else {
        let p = drop_ignored(recs.drop_last(), ignore);
        if record_ignored(recs.last(), ignore) {
            p
        } else {
            p.push(recs.last())
        }
    }
}

/// Tag source records whose stripped tag id is in the ignore set never
/// influence the parsed tag table, for any ignore-set configuration; the
/// per-(item, tag) mean weights and the sparse profile matrix are
/// functions of that table, so they are untouched as well.
pub proof fn lemma_ignored_records_inert(
    recs: Seq<Seq<Seq<char>>>,
    tag_exp: nat,
    ignore: Seq<i32>,
)
    ensures
        tags_of_records(recs, tag_exp, ignore) == tags_of_records(
            drop_ignored(recs, ignore),
            tag_exp,
            ignore,
        ),
        forall|vn: int, tag: int|
            #[trigger] mat_val(tags_of_records(recs, tag_exp, ignore), vn, tag) == mat_val(
                tags_of_records(drop_ignored(recs, ignore), tag_exp, ignore),
                vn,
                tag,
            ),
    decreases recs.len(),
{
    if recs.len() > 0 {
        lemma_ignored_records_inert(recs.drop_last(), tag_exp, ignore);
        let p = drop_ignored(recs.drop_last(), ignore);
        if record_ignored(recs.last(), ignore) {
            assert(tag_of_record(recs.last(), tag_exp, ignore) is None);
        } else {
            let d = p.push(recs.last());
            assert(d.drop_last() =~= p);
            assert(d.last() == recs.last());
        }
    }
}

/// An item is a co-rating candidate exactly when some record within the
/// first `k` rates it, it is not the seed, and its rater also rated the
/// seed.
pub proof fn lemma_co_ids_iff(rs: Seq<RatingV>, seed: int, vn: int, k: int)
    requires
        0 <= k <= rs.len(),
    ensures
        co_ids_prefix(rs, seed, k).contains(vn) <==> exists|j: int|
            0 <= j < k && (#[trigger] rs[j]).vn_id == vn && vn != seed && is_rater(
                rs,
                seed,
                rs[j].user_id,
            ),
    decreases k,
{
    if k > 0 {
        lemma_co_ids_iff(rs, seed, vn, k - 1);
        let p = co_ids_prefix(rs, seed, k - 1);
        let r = rs[k - 1];
        if r.vn_id != seed && is_rater(rs, seed, r.user_id) && !p.contains(r.vn_id) {
            if co_ids_prefix(rs, seed, k).contains(vn) {
                if vn == r.vn_id {
                    assert(rs[k - 1].vn_id == vn && is_rater(rs, seed, rs[k - 1].user_id));
                } else {
                    assert forall|m: int|
                        0 <= m < p.push(r.vn_id).len() && p.push(r.vn_id)[m] == vn implies p.contains(
                        vn,
                    ) by {
                        assert(p.push(r.vn_id)[m] == p[m]);
                    }
                }
            }
            if exists|j: int|
                0 <= j < k && (#[trigger] rs[j]).vn_id == vn && vn != seed && is_rater(
                    rs,
                    seed,
                    rs[j].user_id,
                ) {
                if p.contains(vn) {
                    let m = choose|m: int| 0 <= m < p.len() && p[m] == vn;
                    assert(p.push(r.vn_id)[m] == vn);
                } else if vn == r.vn_id {
                    assert(p.push(r.vn_id)[p.len() as int] == vn);
                }
            }
        }
    }
}

/// The co-rating score map is empty exactly when nothing was asked for or
/// there is no signal: no record of another item by a rater of the seed.
pub proof fn lemma_co_scores_empty_iff(rs: Seq<RatingV>, seed: int, n: int)
    requires
        n >= 0,
    ensures
        co_scores_spec(rs, seed, n).len() == 0 <==> (n == 0 || !exists|j: int|
            0 <= j < rs.len() && (#[trigger] rs[j]).vn_id != seed && is_rater(
                rs,
                seed,
                rs[j].user_id,
            )),
{
    let raw = co_raw_entries(rs, seed);
    lemma_sort_entries(raw);
    let s = take_n(sort_entries(raw), n);
    assert(normalize_spec(s).len() == s.len());
    if exists|j: int|
        0 <= j < rs.len() && (#[trigger] rs[j]).vn_id != seed && is_rater(
            rs,
            seed,
            rs[j].user_id,
        ) {
        let j = choose|j: int|
            0 <= j < rs.len() && (#[trigger] rs[j]).vn_id != seed && is_rater(
                rs,
                seed,
                rs[j].user_id,
            );
        lemma_co_ids_iff(rs, seed, rs[j].vn_id, rs.len() as int);
        assert(co_ids(rs, seed).contains(rs[j].vn_id));
        assert(raw.len() > 0);
    }
    if co_ids(rs, seed).len() > 0 {
        lemma_co_ids_iff(rs, seed, co_ids(rs, seed)[0], rs.len() as int);
        assert(co_ids(rs, seed).contains(co_ids(rs, seed)[0]));
    }
}

/// Combining with a zero tag weight collapses the combined map to the
/// vote-weighted co-rating scores: every combined entry whose id the
/// co-rating map carries is worth `vote_weight` times its co-rating
/// score, and every other combined entry is worth zero.
pub proof fn lemma_zero_tag_weight_collapse(
    u: Seq<(i32, i64)>,
    t: Seq<(i32, i64)>,
    vw: int,
    n: int,
    k: int,
)
    requires
        forall|j: int| 0 <= j < u.len() ==> 0 <= (#[trigger] u[j]).1 <= crate::SCALE,
        forall|j1: int, j2: int|
            0 <= j1 < j2 < u.len() ==> (#[trigger] u[j1]).0 != (#[trigger] u[j2]).0,
        -(crate::VMAX as int) <= vw <= crate::VMAX as int,
        n >= 0,
        0 <= k < combined_spec(u, t, vw, 0, n).len(),
    ensures
        has_key(u, combined_spec(u, t, vw, 0, n)[k].0) ==> combined_spec(u, t, vw, 0, n)[k].1
            == vw * score_of(u, combined_spec(u, t, vw, 0, n)[k].0),
        !has_key(u, combined_spec(u, t, vw, 0, n)[k].0) ==> combined_spec(u, t, vw, 0, n)[k].1
            == 0,
{
    let merged = merge_weighted(u, t, vw, 0);
    let s = take_n(sort_entries(merged), n);
    let e = s[k];
    assert(combined_spec(u, t, vw, 0, n)[k] == (e.0, e.1 as i64));
    assert(s[k] == sort_entries(merged)[k]);
    assert(sort_entries(merged).contains(e));
    lemma_sort_contains(merged, e);
    let j = choose|j: int| 0 <= j < merged.len() && merged[j] == e;
    let ul = u.len() as int;
    if j < ul {
        assert(merged[j] == (u[j].0, (u[j].1 * vw + score_of(t, u[j].0) * 0) as i128));
        assert(0 <= u[j].1 * vw + score_of(t, u[j].0) * 0 == u[j].1 * vw || u[j].1 * vw
            + score_of(t, u[j].0) * 0 == u[j].1 * vw);
        assert(-((crate::SCALE as int) * (crate::VMAX as int)) <= u[j].1 * vw <= (
        crate::SCALE as int) * (crate::VMAX as int)) by (nonlinear_arith)
            requires
                0 <= u[j].1 <= crate::SCALE as int,
                -(crate::VMAX as int) <= vw <= crate::VMAX as int,
        ;
        assert(e.1 as int == u[j].1 * vw);
        crate::recommender::lemma_score_of_at(u, j, u[j].0);
        assert(score_of(u, e.0) == u[j].1 as int);
        assert(vw * (u[j].1 as int) == (u[j].1 as int) * vw) by (nonlinear_arith);
        assert(has_key(u, e.0));
    } else {
        let ti = j - ul;
        assert(merged[j] == (t_only(t, u)[ti].0, (t_only(t, u)[ti].1 * 0) as i128));
        assert(t_only(t, u)[ti].1 * 0 == 0) by (nonlinear_arith);
        assert(e.1 == 0);
        lemma_t_only_src(t, u, ti);
        assert(!has_key(u, e.0));
    }
}

} // verus!
