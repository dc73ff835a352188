//! The recommendation engine: configuration, the record tables, derived
//! aggregates, the sparse profile matrix, and the query methods. Data is
//! ingested once through `load_data`; every query is read-only.

use vstd::prelude::*;

use crate::aggregate::{
    avg_rating_of, compute_average_ratings, compute_tag_means, rated_ids, tag_mean_of, tag_pairs,
};
use crate::data::{Rating, Tag, TitleV, VnTitle};
use crate::ingest::{parse_ratings, parse_ratings_spec, parse_tag_records, parse_titles,
    parse_titles_spec, tags_of_records};
use crate::matrix::{build_matrix, lemma_entries_val_is_mat_val, mat_val, SparseMatrix};
use crate::scores::{
    co_scores_spec, combine_scores, combined_spec, co_rating_scores, has_key, rows_view, score_of,
    tag_scores_spec, tag_similarity_scores,
};
use crate::tabular::{read_tab_records, tab_records_of};
use crate::title::{resolve_title, resolve_title_spec};
use crate::text::fallback_label;

verus! {

/// The recommendation engine.
pub struct VisualNovelRecommender {
    pub num_vns: usize,
    pub tag_weight: i64,
    pub vote_weight: i64,
    pub tag_exp: u32,
    pub vote_exp: u32,
    pub ignore_tags: Vec<i32>,
    pub verbose: bool,
    pub skip_recs: bool,
    pub vn_titles: Vec<VnTitle>,
    pub ratings: Vec<Rating>,
    pub average_ratings: Vec<(i32, i64)>,
    pub tags: Vec<Tag>,
    pub similarity_matrix: Option<SparseMatrix>,
}

/// The largest title id of a nonempty title table.
pub open spec fn max_title_id(ts: Seq<TitleV>) -> int
    recommends
        ts.len() > 0,
    decreases ts.len(),
{
    if ts.len() <= 1 {
        ts[0].vn_id
    } else {
        let m = max_title_id(ts.drop_last());
        if ts.last().vn_id > m {
            ts.last().vn_id
        } else {
            m
        }
    }
}

/// A fixed-length view of an id list: truncated or padded with the
/// sentinel `0`, which means "no further recommendation available".
pub open spec fn resize_spec(s: Seq<i32>, n: nat) -> Seq<i32> {
    Seq::new(n, |i: int| if i < s.len() { s[i] } else { 0i32 })
}

/// The ids of a score map, in map (score-descending) order.
pub open spec fn ids_of(s: Seq<(i32, i64)>) -> Seq<i32> {
    Seq::new(s.len(), |i: int| s[i].0)
}

impl VisualNovelRecommender {
    /// Well-formed: stored values are bounded fixed-point numbers, ids are
    /// non-negative, the combination weights are bounded, and the matrix,
    /// when built, is well-formed.
    pub open spec fn wf(&self) -> bool {
        &&& forall|k: int|
            0 <= k < self.ratings@.len() ==> -(crate::VMAX as int) <= (
            #[trigger] self.ratings@[k]).rating <= crate::VMAX as int
        &&& forall|k: int|
            0 <= k < self.tags@.len() ==> -(crate::VMAX as int) <= (
            #[trigger] self.tags@[k]).rating <= crate::VMAX as int && self.tags@[k].vn_id >= 0
                && self.tags@[k].tag_id >= 0
        &&& forall|k: int|
            0 <= k < self.average_ratings@.len() ==> -(crate::VMAX as int) <= (
            #[trigger] self.average_ratings@[k]).1 <= crate::VMAX as int
        &&& forall|j1: int, j2: int|
            0 <= j1 < j2 < self.average_ratings@.len() ==> (
            #[trigger] self.average_ratings@[j1]).0 != (#[trigger] self.average_ratings@[j2]).0
        &&& -(crate::VMAX as int) <= self.tag_weight <= crate::VMAX as int
        &&& -(crate::VMAX as int) <= self.vote_weight <= crate::VMAX as int
        &&& match self.similarity_matrix {
            Some(m) => m.wf(),
            None => true,
        }
    }

    /// The tag-similarity score map of a seed under the data model; empty
    /// while no matrix is built.
    pub open spec fn tag_scores_of(&self, seed: int, n: int) -> Seq<(i32, i64)> {
        match self.similarity_matrix {
            Some(m) => tag_scores_spec(self.tags.deep_view(), rows_view(&m), seed, n),
            None => Seq::<(i32, i64)>::empty(),
        }
    }

    /// A fresh engine with the given configuration and empty tables.
    pub fn new(
        num_vns: usize,
        tag_weight: i64,
        vote_weight: i64,
        tag_exp: u32,
        vote_exp: u32,
        ignore_tags: Vec<i32>,
        verbose: bool,
        skip_recs: bool,
    ) -> (r: Self)
        requires
            -(crate::VMAX as int) <= tag_weight <= crate::VMAX as int,
            -(crate::VMAX as int) <= vote_weight <= crate::VMAX as int,
        ensures
            r.wf(),
            r.num_vns == num_vns,
            r.tag_weight == tag_weight,
            r.vote_weight == vote_weight,
            r.tag_exp == tag_exp,
            r.vote_exp == vote_exp,
            r.ignore_tags == ignore_tags,
            r.verbose == verbose,
            r.skip_recs == skip_recs,
            r.vn_titles@.len() == 0,
            r.ratings@.len() == 0,
            r.average_ratings@.len() == 0,
            r.tags@.len() == 0,
            r.similarity_matrix is None,
    {
        VisualNovelRecommender {
            num_vns,
            tag_weight,
            vote_weight,
            tag_exp,
            vote_exp,
            ignore_tags,
            verbose,
            skip_recs,
            vn_titles: Vec::new(),
            ratings: Vec::new(),
            average_ratings: Vec::new(),
            tags: Vec::new(),
            similarity_matrix: None,
        }
    }

    /// Ingests the three sources: parses the title, rating, and tag
    /// tables, computes the per-item mean ratings, and builds the sparse
    /// profile matrix from the nonzero per-(item, tag) mean weights. With
    /// `skip_recs` set only the titles are loaded.
    pub fn load_data(&mut self, titles_src: &str, votes_src: &str, tags_src: &str)
        requires
            old(self).wf(),
        ensures
            final(self).wf(),
            final(self).num_vns == old(self).num_vns,
            final(self).tag_weight == old(self).tag_weight,
            final(self).vote_weight == old(self).vote_weight,
            final(self).tag_exp == old(self).tag_exp,
            final(self).vote_exp == old(self).vote_exp,
            final(self).ignore_tags == old(self).ignore_tags,
            final(self).verbose == old(self).verbose,
            final(self).skip_recs == old(self).skip_recs,
            final(self).vn_titles.deep_view() =~~= parse_titles_spec(titles_src@),
            old(self).skip_recs ==> final(self).ratings@.len() == 0 && final(self).tags@.len()
                == 0 && final(self).average_ratings@.len() == 0
                && final(self).similarity_matrix is None,
            !old(self).skip_recs ==> {
                &&& final(self).ratings.deep_view() =~~= parse_ratings_spec(
                    votes_src@,
                    old(self).vote_exp as nat,
                )
                &&& final(self).tags.deep_view() =~~= tags_of_records(
                    tab_records_of(tags_src@),
                    old(self).tag_exp as nat,
                    old(self).ignore_tags@,
                )
                &&& final(self).average_ratings@.len() == rated_ids(
                    final(self).ratings.deep_view(),
                ).len()
                &&& forall|j: int|
                    0 <= j < final(self).average_ratings@.len()
                        ==> (#[trigger] final(self).average_ratings@[j]).0 as int == rated_ids(
                        final(self).ratings.deep_view(),
                    )[j]
                        && final(self).average_ratings@[j].1 as int == avg_rating_of(
                        final(self).ratings.deep_view(),
                        final(self).average_ratings@[j].0 as int,
                    )
                &&& forall|j1: int, j2: int|
                    0 <= j1 < j2 < final(self).average_ratings@.len()
                        ==> (#[trigger] final(self).average_ratings@[j1]).0
                        != (#[trigger] final(self).average_ratings@[j2]).0
                &&& (final(self).similarity_matrix matches Some(m) && forall|r: int, c: int|
                    #[trigger] m.entry(r, c) == mat_val(final(self).tags.deep_view(), r, c))
            },
    {
        self.vn_titles = parse_titles(titles_src);
        if self.skip_recs {
            self.ratings = Vec::new();
            self.tags = Vec::new();
            self.average_ratings = Vec::new();
            self.similarity_matrix = None;
            return ;
        }
        self.ratings = parse_ratings(votes_src, self.vote_exp);
        self.average_ratings = compute_average_ratings(&self.ratings);
        let records = read_tab_records(tags_src);
        self.tags = parse_tag_records(&records, self.tag_exp, &self.ignore_tags);
        let means = compute_tag_means(&self.tags);
        let m = build_matrix(&means);
        proof {
            let tv = self.tags.deep_view();
            assert forall|r: int, c: int| #[trigger] m.entry(r, c) == mat_val(tv, r, c) by {
                lemma_entries_val_is_mat_val(means@, tv, r, c);
            }
        }
        self.similarity_matrix = Some(m);
    }

    /// The mean rating of an item, or an error when it has no ratings.
    #[verifier::loop_isolation(false)]
    pub fn get_average_rating(&self, vn_id: i32) -> (r: Result<i64, String>)
        requires
            self.wf(),
        ensures
            has_key(self.average_ratings@, vn_id) ==> (r matches Ok(v) && v as int == score_of(
                self.average_ratings@,
                vn_id,
            )),
            !has_key(self.average_ratings@, vn_id) ==> (r matches Err(e) && e@
                == "No ratings available for this VN."@),
    {
        let avgs = &self.average_ratings;
        let mut k: usize = 0;
        while k < avgs.len()
            invariant
                k <= avgs@.len(),
                forall|j: int| 0 <= j < k ==> (#[trigger] avgs@[j]).0 != vn_id,
                avgs == &self.average_ratings,
            decreases avgs@.len() - k,
        {
            if avgs[k].0 == vn_id {
                proof {
                    lemma_score_of_at(avgs@, k as int, vn_id);
                }
                return Ok(avgs[k].1);
            }
            k = k + 1;
        }
        proof {
            assert(!has_key(avgs@, vn_id));
        }
        Err("No ratings available for this VN.".to_owned())
    }

    /// The largest item id among the loaded titles, if any.
    pub fn get_last_vn_id(&self) -> (r: Option<i32>)
        ensures
            self.vn_titles@.len() == 0 ==> r is None,
            self.vn_titles@.len() > 0 ==> (r matches Some(v) && v as int == max_title_id(
                self.vn_titles.deep_view(),
            )),
    {
        let ghost tsv = self.vn_titles.deep_view();
        if self.vn_titles.len() == 0 {
            return None;
        }
        let mut m: i32 = self.vn_titles[0].vn_id;
        let mut k: usize = 1;
        proof {
            assert(tsv[0] == self.vn_titles@[0]@);
            assert(m as int == max_title_id(tsv.take(1)));
        }
        while k < self.vn_titles.len()
            invariant
                1 <= k <= tsv.len(),
                tsv == self.vn_titles.deep_view(),
                m as int == max_title_id(tsv.take(k as int)),
            decreases tsv.len() - k,
        {
            proof {
                assert(tsv.take(k as int + 1).drop_last() =~= tsv.take(k as int));
                assert(tsv.take(k as int + 1).last() == tsv[k as int]);
                assert(tsv[k as int] == self.vn_titles@[k as int]@);
            }
            if self.vn_titles[k].vn_id > m {
                m = self.vn_titles[k].vn_id;
            }
            k = k + 1;
        }
        proof {
            assert(tsv.take(tsv.len() as int) =~= tsv);
        }
        Some(m)
    }

    /// The resolved title of an item: never fails; an unknown id resolves
    /// to the synthesized `v<id>` label.
    pub fn get_title(&self, vn_id: i32) -> (r: String)
        ensures
            r@ == resolve_title_spec(self.vn_titles.deep_view(), vn_id as int),
            (forall|k: int|
                0 <= k < self.vn_titles@.len() ==> (#[trigger] self.vn_titles@[k]).vn_id
                    != vn_id) ==> r@ == fallback_label(vn_id as int),
    {
        resolve_title(&self.vn_titles, vn_id)
    }

    /// The co-rating score map of a seed. The seed is never a key of its
    /// own result; the map is normalized into `[0, SCALE]`.
    pub fn get_user_recommendations_scores(&self, vn_id: i32) -> (out: Vec<(i32, i64)>)
        requires
            self.wf(),
        ensures
            out@ =~= co_scores_spec(self.ratings.deep_view(), vn_id as int, self.num_vns as int),
            out@.len() <= self.num_vns,
            forall|k: int|
                0 <= k < out@.len() ==> (#[trigger] out@[k]).0 != vn_id && 0 <= out@[k].1
                    <= crate::SCALE,
            forall|k1: int, k2: int|
                0 <= k1 < k2 < out@.len() ==> (#[trigger] out@[k1]).0 != (#[trigger] out@[k2]).0,
    {
        co_rating_scores(&self.ratings, vn_id, self.num_vns)
    }

    /// The tag-similarity score map of a seed. Empty when no matrix is
    /// built, the seed has no matrix row, or its profile has zero
    /// magnitude; the seed is never a key of its own result; the map is
    /// normalized into `[0, SCALE]`.
    pub fn get_tag_recommendations_score(&self, vn_id: i32) -> (out: Vec<(i32, i64)>)
        requires
            self.wf(),
        ensures
            out@ =~= self.tag_scores_of(vn_id as int, self.num_vns as int),
            out@.len() <= self.num_vns,
            forall|k: int|
                0 <= k < out@.len() ==> (#[trigger] out@[k]).0 != vn_id && 0 <= out@[k].1
                    <= crate::SCALE,
            forall|k1: int, k2: int|
                0 <= k1 < k2 < out@.len() ==> (#[trigger] out@[k1]).0 != (#[trigger] out@[k2]).0,
    {
        match &self.similarity_matrix {
            Some(m) => tag_similarity_scores(&self.tags, m, vn_id, self.num_vns),
            None => {
                let out: Vec<(i32, i64)> = Vec::new();
                proof {
                    assert(out@ =~= self.tag_scores_of(vn_id as int, self.num_vns as int));
                }
                out
            },
        }
    }

    /// The combined score map of a seed: for every item in either signal,
    /// `vote_weight * co-rating score + tag_weight * tag score`, sorted
    /// descending, top `num_vns`; not re-normalized.
    pub fn get_combined_recommendations_score(&self, vn_id: i32) -> (out: Vec<(i32, i64)>)
        requires
            self.wf(),
        ensures
            out@ =~= combined_spec(
                co_scores_spec(self.ratings.deep_view(), vn_id as int, self.num_vns as int),
                self.tag_scores_of(vn_id as int, self.num_vns as int),
                self.vote_weight as int,
                self.tag_weight as int,
                self.num_vns as int,
            ),
            out@.len() <= self.num_vns,
            forall|k1: int, k2: int|
                0 <= k1 < k2 < out@.len() ==> (#[trigger] out@[k1]).0 != (#[trigger] out@[k2]).0,
    {
        let user_recs = self.get_user_recommendations_scores(vn_id);
        let tag_recs = self.get_tag_recommendations_score(vn_id);
        combine_scores(&user_recs, &tag_recs, self.vote_weight, self.tag_weight, self.num_vns)
    }

    /// Shapes an id list to exactly `num_vns` entries: truncated when
    /// longer, padded with the sentinel `0` when shorter, order preserved.
    pub fn resize_list(&self, list: Vec<i32>) -> (r: Vec<i32>)
        ensures
            r@ =~= resize_spec(list@, self.num_vns as nat),
            r@.len() == self.num_vns,
            forall|i: int| 0 <= i < self.num_vns && i < list@.len() ==> r@[i] == list@[i],
            forall|i: int| list@.len() <= i < self.num_vns ==> r@[i] == 0i32,
    {
        let mut list = list;
        if list.len() < self.num_vns {
            list.resize(self.num_vns, 0);
        }
        if list.len() > self.num_vns {
            list.truncate(self.num_vns);
        }
        list
    }

    /// The co-rating recommendation list: the score map's ids, shaped to
    /// `num_vns` entries.
    pub fn get_user_recommendations(&self, vn_id: i32) -> (r: Vec<i32>)
        requires
            self.wf(),
        ensures
            r@ =~= resize_spec(
                ids_of(
                    co_scores_spec(self.ratings.deep_view(), vn_id as int, self.num_vns as int),
                ),
                self.num_vns as nat,
            ),
            r@.len() == self.num_vns,
    {
        let scores = self.get_user_recommendations_scores(vn_id);
        let ids = extract_ids(&scores);
        self.resize_list(ids)
    }

    /// The tag-similarity recommendation list: the score map's ids, shaped
    /// to `num_vns` entries.
    pub fn get_tag_recommendations(&self, vn_id: i32) -> (r: Vec<i32>)
        requires
            self.wf(),
        ensures
            r@ =~= resize_spec(
                ids_of(self.tag_scores_of(vn_id as int, self.num_vns as int)),
                self.num_vns as nat,
            ),
            r@.len() == self.num_vns,
    {
        let scores = self.get_tag_recommendations_score(vn_id);
        let ids = extract_ids(&scores);
        self.resize_list(ids)
    }

    /// The combined recommendation list: the combined score map's ids,
    /// shaped to `num_vns` entries.
    pub fn get_combined_recommendations(&self, vn_id: i32) -> (r: Vec<i32>)
        requires
            self.wf(),
        ensures
            r@ =~= resize_spec(
                ids_of(
                    combined_spec(
                        co_scores_spec(
                            self.ratings.deep_view(),
                            vn_id as int,
                            self.num_vns as int,
                        ),
                        self.tag_scores_of(vn_id as int, self.num_vns as int),
                        self.vote_weight as int,
                        self.tag_weight as int,
                        self.num_vns as int,
                    ),
                ),
                self.num_vns as nat,
            ),
            r@.len() == self.num_vns,
    {
        let scores = self.get_combined_recommendations_score(vn_id);
        let ids = extract_ids(&scores);
        self.resize_list(ids)
    }
}

/// The ids of a score map, in map order.
fn extract_ids(scores: &Vec<(i32, i64)>) -> (r: Vec<i32>)
    ensures
        r@ =~= ids_of(scores@),
{
    let mut r: Vec<i32> = Vec::new();
    let mut k: usize = 0;
    while k < scores.len()
        invariant
            k <= scores@.len(),
            r@.len() == k,
            forall|j: int| 0 <= j < k ==> (#[trigger] r@[j]) == scores@[j].0,
        decreases scores@.len() - k,
    {
        r.push(scores[k].0);
        k = k + 1;
    }
    r
}

/// In a distinct-key map, the entry carrying a key carries the map's score
/// for it.
pub proof fn lemma_score_of_at(s: Seq<(i32, i64)>, k: int, id: i32)
    requires
        0 <= k < s.len(),
        s[k].0 == id,
        forall|j1: int, j2: int|
            0 <= j1 < j2 < s.len() ==> (#[trigger] s[j1]).0 != (#[trigger] s[j2]).0,
    ensures
        score_of(s, id) == s[k].1 as int,
        has_key(s, id),
    decreases s.len(),
{
    if k == s.len() - 1 {
        assert(s.last() == s[k]);
    } else {
        assert(s[k].0 != s[s.len() - 1].0);
        assert(s.drop_last()[k] == s[k]);
        assert(forall|j1: int, j2: int|
            0 <= j1 < j2 < s.drop_last().len() ==> (#[trigger] s.drop_last()[j1]).0 != (
            #[trigger] s.drop_last()[j2]).0);
        lemma_score_of_at(s.drop_last(), k, id);
    }
}

} // verus!
