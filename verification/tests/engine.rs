use visual_novel_recommendation_engine::ranking::min_max_normalize;
use visual_novel_recommendation_engine::recommender::VisualNovelRecommender;
use visual_novel_recommendation_engine::SCALE;

fn engine(num: usize, tag_weight: i64, vote_weight: i64, ignore: Vec<i32>) -> VisualNovelRecommender {
    VisualNovelRecommender::new(num, tag_weight, vote_weight, 2, 1, ignore, false, false)
}

#[test]
fn english_title_wins() {
    let mut e = engine(25, 1500, 1000, vec![]);
    e.load_data("v1\ten\tt\tFoo\t\\N\nv1\tja\tf\tFooJP\tFooLatin", "", "");
    assert_eq!(e.get_title(1), "Foo");
}

#[test]
fn japanese_latin_title_second() {
    let mut e = engine(25, 1500, 1000, vec![]);
    e.load_data("v1\tja\tf\tFooJP\tFooLatin\nv1\tde\tt\tFooDE\t\\N", "", "");
    assert_eq!(e.get_title(1), "FooLatin");
}

#[test]
fn japanese_title_third() {
    let mut e = engine(25, 1500, 1000, vec![]);
    e.load_data("v1\tja\tf\tFooJP\t\\N\nv1\tde\tf\tFooDE\tLatinDE", "", "");
    assert_eq!(e.get_title(1), "FooJP");
}

#[test]
fn official_latin_title_fourth() {
    let mut e = engine(25, 1500, 1000, vec![]);
    e.load_data("v1\tde\tt\tFooDE\tLatinDE\nv1\tfr\tf\tFooFR\t\\N", "", "");
    assert_eq!(e.get_title(1), "LatinDE");
}

#[test]
fn official_title_fifth() {
    let mut e = engine(25, 1500, 1000, vec![]);
    e.load_data("v1\tde\tf\tFooDE\t\\N\nv1\tfr\tt\tFooFR\t\\N", "", "");
    assert_eq!(e.get_title(1), "FooFR");
}

#[test]
fn unknown_id_synthesizes_label() {
    let mut e = engine(25, 1500, 1000, vec![]);
    e.load_data("v1\ten\tt\tFoo\t\\N", "", "");
    assert_eq!(e.get_title(42), "v42");
}

#[test]
fn empty_store_synthesizes_label() {
    let e = engine(25, 1500, 1000, vec![]);
    assert_eq!(e.get_title(7), "v7");
}

#[test]
fn id_marker_prefix_is_stripped() {
    let mut e = engine(25, 1500, 1000, vec![]);
    e.load_data("vv12\ten\tt\tBar\t\\N", "", "");
    assert_eq!(e.get_title(12), "Bar");
}

#[test]
fn short_title_rows_are_skipped() {
    let mut e = engine(25, 1500, 1000, vec![]);
    e.load_data("v1\ten\tt\nv2\ten\tt\tOk\t\\N", "", "");
    assert_eq!(e.vn_titles.len(), 1);
    assert_eq!(e.get_title(2), "Ok");
    assert_eq!(e.get_title(1), "v1");
}

#[test]
fn unparsable_title_id_is_skipped() {
    let mut e = engine(25, 1500, 1000, vec![]);
    e.load_data("vx9\ten\tt\tBad\t\\N\nv3\ten\tt\tGood\t\\N", "", "");
    assert_eq!(e.vn_titles.len(), 1);
    assert_eq!(e.get_title(3), "Good");
}

#[test]
fn average_rating_of_rated_item() {
    let mut e = engine(25, 1500, 1000, vec![]);
    e.load_data("", "5 100 80 2020-01-01\n5 200 60 2020-01-02", "");
    // mean of 80.0 and 60.0 as fixed-point thousandths
    assert_eq!(e.get_average_rating(5), Ok(70_000));
}

#[test]
fn average_rating_error_for_unrated_item() {
    let mut e = engine(25, 1500, 1000, vec![]);
    e.load_data("", "5 100 80 2020-01-01", "");
    assert_eq!(
        e.get_average_rating(6),
        Err("No ratings available for this VN.".to_string())
    );
}

#[test]
fn vote_exponent_applies_signed_power_curve() {
    let mut e = VisualNovelRecommender::new(25, 1500, 1000, 2, 2, vec![], false, false);
    e.load_data("", "5 10 3 d\n6 10 -3 d", "");
    // 3.0^2 = 9.0; the sign survives the curve
    assert_eq!(e.get_average_rating(5), Ok(9_000));
    assert_eq!(e.get_average_rating(6), Ok(-9_000));
}

#[test]
fn malformed_rating_rows_are_skipped() {
    let mut e = engine(25, 1500, 1000, vec![]);
    e.load_data("", "5 100 eighty 2020\n5 100\n5 200 50 2020", "");
    assert_eq!(e.ratings.len(), 1);
    assert_eq!(e.get_average_rating(5), Ok(50_000));
}

#[test]
fn get_last_vn_id_is_title_maximum() {
    let mut e = engine(25, 1500, 1000, vec![]);
    assert_eq!(e.get_last_vn_id(), None);
    e.load_data("v3\ten\tt\tA\t\\N\nv17\tja\tf\tB\t\\N\nv5\ten\tf\tC\t\\N", "", "");
    assert_eq!(e.get_last_vn_id(), Some(17));
}

#[test]
fn co_rating_single_candidate_normalizes_to_one() {
    // Two raters rate item 5 and item 9 identically: item 9 is the only
    // candidate for seed 5, so min == max and its score becomes 1.0.
    let mut e = engine(25, 1500, 1000, vec![]);
    e.load_data(
        "",
        "5 100 80 d\n5 200 90 d\n9 100 80 d\n9 200 90 d",
        "",
    );
    let scores = e.get_user_recommendations_scores(5);
    assert_eq!(scores, vec![(9, SCALE)]);
}

#[test]
fn co_rating_excludes_seed() {
    let mut e = engine(25, 1500, 1000, vec![]);
    e.load_data("", "5 100 80 d\n5 100 70 d\n9 100 60 d", "");
    let scores = e.get_user_recommendations_scores(5);
    assert!(scores.iter().all(|&(id, _)| id != 5));
    assert_eq!(scores, vec![(9, SCALE)]);
}

#[test]
fn co_rating_top_n_keeps_order_and_length() {
    // Five qualifying candidates, three requested: the list holds exactly
    // three ids, ordered by descending raw score.
    let mut e = engine(3, 1500, 1000, vec![]);
    e.load_data(
        "",
        "1 10 50 d\n2 10 50 d\n3 10 60 d\n4 10 70 d\n5 10 80 d\n6 10 90 d",
        "",
    );
    let list = e.get_user_recommendations(1);
    assert_eq!(list, vec![6, 5, 4]);
}

#[test]
fn result_list_pads_with_sentinel_zero() {
    let mut e = engine(4, 1500, 1000, vec![]);
    e.load_data("", "1 10 50 d\n2 10 70 d", "");
    let list = e.get_user_recommendations(1);
    assert_eq!(list, vec![2, 0, 0, 0]);
}

#[test]
fn resize_list_truncates_and_pads() {
    let e = engine(3, 1500, 1000, vec![]);
    assert_eq!(e.resize_list(vec![7, 8]), vec![7, 8, 0]);
    assert_eq!(e.resize_list(vec![1, 2, 3, 4, 5]), vec![1, 2, 3]);
    assert_eq!(e.resize_list(vec![]), vec![0, 0, 0]);
}

#[test]
fn normalization_maps_extremes() {
    let input: Vec<(i32, i128)> = vec![(1, 10), (2, 30), (3, 20)];
    let out = min_max_normalize(&input);
    assert_eq!(out, vec![(1, 0), (2, SCALE), (3, 500)]);
}

#[test]
fn normalization_all_equal_goes_to_one() {
    let input: Vec<(i32, i128)> = vec![(4, 7), (9, 7)];
    let out = min_max_normalize(&input);
    assert_eq!(out, vec![(4, SCALE), (9, SCALE)]);
}

#[test]
fn normalization_empty_stays_empty() {
    let input: Vec<(i32, i128)> = vec![];
    assert_eq!(min_max_normalize(&input), vec![]);
}

#[test]
fn tag_similarity_identical_profiles() {
    // Items 1 and 2 share one tag with equal weight: the only candidate's
    // cosine similarity normalizes to 1.0.
    let mut e = engine(25, 1500, 1000, vec![]);
    e.load_data(
        "",
        "",
        "0\tg5\tv1\t0\t2.0\n0\tg5\tv2\t0\t2.0",
    );
    let scores = e.get_tag_recommendations_score(1);
    assert_eq!(scores, vec![(2, SCALE)]);
}

#[test]
fn tag_similarity_out_of_matrix_seed_is_empty() {
    let mut e = engine(25, 1500, 1000, vec![]);
    e.load_data("", "", "0\tg5\tv1\t0\t2.0\n0\tg5\tv2\t0\t2.0");
    assert_eq!(e.get_tag_recommendations_score(99), vec![]);
    assert_eq!(e.get_tag_recommendations(99), vec![0; 25]);
}

#[test]
fn ignored_tags_never_reach_the_table() {
    let ignore = vec![32, 2040];
    let mut with_rows = engine(25, 1500, 1000, ignore.clone());
    with_rows.load_data(
        "",
        "",
        "0\tg32\tv1\t0\t3.0\n0\tg5\tv1\t0\t2.0\n0\tg2040\tv2\t0\t1.0",
    );
    let mut without_rows = engine(25, 1500, 1000, ignore);
    without_rows.load_data("", "", "0\tg5\tv1\t0\t2.0");
    assert_eq!(with_rows.tags.len(), without_rows.tags.len());
    for (a, b) in with_rows.tags.iter().zip(without_rows.tags.iter()) {
        assert_eq!((a.tag_id, a.vn_id, a.rating), (b.tag_id, b.vn_id, b.rating));
    }
}

#[test]
fn quoted_tag_fields_are_unquoted() {
    // The tabular reader must undo csv quoting: a quoted weight field
    // still parses, so the row reaches the table.
    let mut e = engine(25, 1500, 1000, vec![]);
    e.load_data("", "", "0\tg5\tv1\t0\t\"2.5\"\n0\tg5\tv2\t0\t2.5");
    assert_eq!(e.tags.len(), 2);
    assert_eq!(e.tags[0].rating, e.tags[1].rating);
    // 2.5^2 = 6.25 as fixed-point thousandths
    assert_eq!(e.tags[0].rating, 6_250);
}

#[test]
fn combined_with_zero_tag_weight_collapses() {
    // vote weight 1.0, tag weight 0: the combined score of the shared id
    // is exactly vote_weight * its co-rating score (in product scale).
    let mut e = engine(25, 0, 1000, vec![]);
    e.load_data(
        "",
        "5 100 80 d\n5 200 90 d\n9 100 80 d\n9 200 90 d",
        "0\tg5\tv5\t0\t2.0\n0\tg5\tv9\t0\t2.0",
    );
    let co = e.get_user_recommendations_scores(5);
    let combined = e.get_combined_recommendations_score(5);
    assert_eq!(co, vec![(9, SCALE)]);
    assert_eq!(combined, vec![(9, 1000 * SCALE)]);
}

#[test]
fn combined_merges_both_signals() {
    let mut e = engine(25, 1000, 1000, vec![]);
    e.load_data(
        "",
        "5 100 80 d\n5 200 90 d\n9 100 80 d\n9 200 90 d",
        "0\tg5\tv5\t0\t2.0\n0\tg5\tv7\t0\t2.0",
    );
    // co-rating gives item 9 at 1.0; tag similarity gives item 7 at 1.0
    let combined = e.get_combined_recommendations_score(5);
    assert_eq!(combined.len(), 2);
    for &(id, v) in combined.iter() {
        assert!(id == 9 || id == 7);
        assert_eq!(v, 1000 * SCALE);
    }
}

#[test]
fn skip_recs_loads_titles_only() {
    let mut e = VisualNovelRecommender::new(25, 1500, 1000, 2, 1, vec![], false, true);
    e.load_data("v1\ten\tt\tFoo\t\\N", "5 100 80 d", "0\tg5\tv1\t0\t2.0");
    assert_eq!(e.get_title(1), "Foo");
    assert_eq!(e.ratings.len(), 0);
    assert_eq!(e.tags.len(), 0);
    assert!(e.similarity_matrix.is_none());
}

#[test]
fn queries_without_data_yield_sentinel_lists() {
    let e = engine(3, 1500, 1000, vec![]);
    assert_eq!(e.get_user_recommendations(1), vec![0, 0, 0]);
    assert_eq!(e.get_tag_recommendations(1), vec![0, 0, 0]);
    assert_eq!(e.get_combined_recommendations(1), vec![0, 0, 0]);
}
