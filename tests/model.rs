use slim::ftrl::{Coord, Ftrl, Params, ONE};
use slim::identifiers::{Identifier, Key};
use slim::interactions::UserItemInteractions;
use slim::paths::{locate, parse_s3_path, Location};
use slim::ranking::top_scored;
use slim::slim::SlimMSE;

fn k(s: &str) -> Key {
    Key::Str(s.to_string())
}

fn default_model() -> SlimMSE {
    SlimMSE::new(500_000, ONE, 200, 100, -5 * ONE, 10 * ONE, None)
}

fn names(keys: &[Key]) -> Vec<String> {
    keys.iter()
        .map(|key| match key {
            Key::Str(s) => s.clone(),
            Key::Int(i) => i.to_string(),
        })
        .collect()
}

fn scenario() -> SlimMSE {
    let mut m = default_model();
    m.fit(
        vec![
            (k("u1"), k("i1"), 0, 5 * ONE),
            (k("u1"), k("i2"), 1, 3 * ONE),
            (k("u1"), k("i3"), 2, 4 * ONE),
            (k("u2"), k("i1"), 3, 5 * ONE),
        ],
        None,
    );
    m
}

#[test]
fn identifiers_are_stable_and_distinct() {
    let mut m = default_model();
    let first = m.bulk_identify(vec![(k("a"), k("x")), (k("b"), k("y")), (Key::Int(7), k("x"))]);
    assert_eq!(first, vec![Some((0, 0)), Some((1, 1)), Some((2, 0))]);
    let again = m.bulk_identify(vec![(k("b"), k("y")), (k("a"), k("z"))]);
    assert_eq!(again, vec![Some((1, 1)), Some((0, 2))]);
}

#[test]
fn registry_round_trip() {
    let mut r = Identifier::new();
    assert_eq!(r.identify(k("p")), Some(0));
    assert_eq!(r.identify(Key::Int(3)), Some(1));
    assert_eq!(r.identify(k("p")), Some(0));
    assert_eq!(r.get_id(&Key::Int(3)), Some(1));
    assert_eq!(r.get_id(&Key::Int(4)), None);
    assert!(matches!(r.get(1), Some(Key::Int(3))));
    assert!(r.get(2).is_none());
    assert_eq!(r.len(), 2);
}

#[test]
fn ratings_are_clamped() {
    let mut m = default_model();
    m.fit(vec![(k("u"), k("hi"), 0, 100 * ONE), (k("u"), k("lo"), 1, -100 * ONE)], None);
    let recs = m.interactions().user_records(0);
    assert_eq!(recs.len(), 2);
    assert_eq!(recs[0].rating, 10 * ONE);
    assert_eq!(recs[1].rating, -5 * ONE);
}

#[test]
fn update_flag_keeps_or_replaces() {
    let mut kept = default_model();
    kept.fit(vec![(k("u"), k("i"), 0, 5 * ONE)], None);
    kept.fit(vec![(k("u"), k("i"), 1, 3 * ONE)], Some(false));
    assert_eq!(kept.interactions().user_records(0)[0].rating, 5 * ONE);

    let mut replaced = default_model();
    replaced.fit(vec![(k("u"), k("i"), 0, 5 * ONE)], None);
    replaced.fit(vec![(k("u"), k("i"), 1, 3 * ONE)], Some(true));
    let recs = replaced.interactions().user_records(0);
    assert_eq!(recs.len(), 1);
    assert_eq!(recs[0].rating, 3 * ONE);
    assert_eq!(recs[0].time, 1);
}

#[test]
fn weights_only_for_jointly_observed_pairs() {
    let m = scenario();
    let mut pairs: Vec<(u32, u32)> =
        m.optimizer().get_weights().iter().map(|&(a, b, _)| (a, b)).collect();
    pairs.sort();
    assert_eq!(pairs, vec![(0, 1), (0, 2), (1, 2)]);
    assert_eq!(m.optimizer().get_weight(1, 0), None);
    assert_eq!(m.optimizer().get_weight(2, 0), None);
}

#[test]
fn ftrl_step_exact_values() {
    let m = scenario();
    assert_eq!(m.optimizer().get_weight(0, 1), Some(468_742));
    assert_eq!(m.optimizer().get_weight(1, 2), Some(461_528));
    assert_eq!(m.optimizer().get_weight(0, 2), Some(476_184));
}

#[test]
fn ftrl_update_creates_and_rejects() {
    let mut f = Ftrl::new(500_000, ONE, 200, 100);
    assert!(f.update_gradients(4, 9, -15 * ONE));
    assert_eq!(f.get_weight(4, 9), Some(468_742));
    assert_eq!(f.get_weight(9, 4), None);
    let mut frozen = Ftrl::new(0, ONE, 200, 100);
    assert!(!frozen.update_gradients(1, 2, ONE));
    assert_eq!(frozen.get_weight(1, 2), None);
    let c = slim::ftrl::step_exec(
        Params { alpha: 500_000, beta: ONE, lambda1: 20 * ONE, lambda2: 100 },
        Coord { w: 0, n: 0, z: 0 },
        -15 * ONE,
    );
    assert_eq!(c, Some(Coord { w: 0, n: 225_000_000, z: -15 * ONE }));
}

#[test]
fn self_only_prediction_returns_stored_rating() {
    let mut m = default_model();
    m.fit(vec![(k("u1"), k("i1"), 0, 5 * ONE)], None);
    assert_eq!(m.predict_rating(&k("u1"), &k("i1")), Some(5 * ONE));
}

#[test]
fn prediction_is_weighted_sum() {
    let m = scenario();
    // u2 rated only i1 (5): i2 is scored 5 * w(i1, i2).
    assert_eq!(m.predict_rating(&k("u2"), &k("i2")), Some(2_343_710));
    assert_eq!(m.predict_rating(&k("u2"), &k("i3")), Some(2_380_920));
}

#[test]
fn zero_weight_pair_predicts_zero() {
    let mut m = SlimMSE::new(500_000, ONE, 1000 * ONE, 100, -5 * ONE, 10 * ONE, None);
    m.fit(vec![(k("u1"), k("i1"), 0, 5 * ONE), (k("u1"), k("i2"), 1, 3 * ONE)], None);
    assert_eq!(m.optimizer().get_weight(0, 1), Some(0));
    assert_eq!(m.predict_rating(&k("u1"), &k("i2")), Some(0));
}

#[test]
fn first_pair_weight_absent_before_joint_fit() {
    let mut m = default_model();
    m.fit(vec![(k("u1"), k("i1"), 0, 5 * ONE)], None);
    m.bulk_identify(vec![(k("u1"), k("i2"))]);
    assert_eq!(m.optimizer().get_weight(0, 1), None);
    assert_eq!(m.predict_rating(&k("u1"), &k("i2")), Some(0));
    m.fit(vec![(k("u1"), k("i2"), 1, 3 * ONE)], None);
    assert_eq!(m.predict_rating(&k("u1"), &k("i2")), Some(2_343_710));
}

#[test]
fn recommend_sorted_and_filtered() {
    let m = scenario();
    let all = m.recommend(&k("u2"), 5, None);
    assert_eq!(names(&all), vec!["i3", "i2"]);
    let one = m.recommend(&k("u2"), 1, Some(true));
    assert_eq!(names(&one), vec!["i3"]);
    let with_rated = m.recommend(&k("u2"), 5, Some(false));
    assert_eq!(names(&with_rated), vec!["i3", "i2", "i1"]);
    assert!(m.recommend(&k("u1"), 5, None).is_empty());
}

#[test]
fn similar_items_excludes_query() {
    let m = scenario();
    let r = m.similar_items(vec![k("i1"), k("i3")], 2, true);
    assert_eq!(r.len(), 2);
    assert!(!names(&r[0]).contains(&"i1".to_string()));
    assert_eq!(names(&r[1]), vec!["i1", "i2"]);
    let unfiltered = m.similar_items(vec![k("i3")], 3, false);
    assert_eq!(names(&unfiltered[0])[..2].to_vec(), vec!["i1", "i2"]);
}

#[test]
fn unknown_keys_are_neutral() {
    let m = scenario();
    assert_eq!(m.predict_rating(&k("nobody"), &k("i1")), Some(0));
    assert_eq!(m.predict_rating(&k("u1"), &k("nothing")), Some(0));
    assert!(m.recommend(&k("nobody"), 3, None).is_empty());
    let r = m.similar_items(vec![k("nothing")], 3, true);
    assert_eq!(r.len(), 1);
    assert!(r[0].is_empty());
}

#[test]
fn empirical_error_mean_and_reset() {
    let mut m = default_model();
    assert_eq!(m.get_empirical_error(None), 0);
    m.fit(vec![(k("u1"), k("i1"), 0, 5 * ONE), (k("u1"), k("i2"), 1, 3 * ONE)], None);
    assert_eq!(m.error_totals(), (8 * ONE as u128, 2));
    assert_eq!(m.get_empirical_error(Some(false)), 4 * ONE as u128);
    assert_eq!(m.get_empirical_error(Some(true)), 4 * ONE as u128);
    assert_eq!(m.get_empirical_error(None), 0);
}

#[test]
fn fit_identified_uses_given_ids() {
    let mut m = default_model();
    m.fit_identified(vec![(3, 0, 0, 5 * ONE), (3, 1, 1, 3 * ONE)], None);
    assert_eq!(m.interactions().user_records(3).len(), 2);
    assert_eq!(m.optimizer().get_weight(0, 1), Some(468_742));
    assert_eq!(m.predict_ids(3, 1, true), Some(2_343_710));
    assert_eq!(m.interactions().get_all_item_ids(), vec![0, 1]);
}

#[test]
fn store_recency_and_candidates() {
    let mut s = UserItemInteractions::new(-5 * ONE, 10 * ONE, None);
    s.add_interaction(0, 2, 0, ONE, false);
    s.add_interaction(0, 0, 1, -ONE, false);
    s.add_interaction(0, 4, 2, 2 * ONE, false);
    assert_eq!(s.get_user_items(0, None), vec![2, 0, 4]);
    assert_eq!(s.get_user_items(0, Some(2)), vec![4, 0]);
    assert_eq!(s.get_all_non_interacted_items(0), vec![1, 3]);
    assert_eq!(s.get_all_non_negative_items(0), vec![1, 2, 3, 4]);
    assert_eq!(s.get_user_item_rating(0, 0, 7), -ONE);
    assert_eq!(s.get_user_item_rating(1, 0, 7), 7);
}

#[test]
fn ratings_decay_by_half_lives() {
    let mut s = UserItemInteractions::new(-5 * ONE, 10 * ONE, Some(10));
    s.add_interaction(0, 0, 0, 8 * ONE, false);
    s.add_interaction(0, 1, 0, -3 * ONE, false);
    s.add_interaction(1, 0, 25, ONE, false);
    assert_eq!(s.get_user_item_rating(0, 0, 0), 2 * ONE);
    assert_eq!(s.get_user_item_rating(0, 1, 0), -750_000);
    assert_eq!(s.get_user_item_rating(1, 0, 0), ONE);
}

#[test]
fn top_scored_orders_by_score() {
    let r = top_scored(vec![(3, 10), (9, 11), (-1, 12), (9, 13)], 3);
    assert_eq!(r.len(), 3);
    assert_eq!(r[0].0, 9);
    assert_eq!(r[1].0, 9);
    assert_eq!(r[2], (3, 10));
}

#[test]
fn paths_are_located() {
    assert_eq!(parse_s3_path("s3://bucket/a/b.bin"), ("bucket".to_string(), "a/b.bin".to_string()));
    assert_eq!(parse_s3_path("s3://bucket"), ("bucket".to_string(), String::new()));
    assert!(matches!(locate("file:///tmp/m.bin"), Location::Local(p) if p == "/tmp/m.bin"));
    assert!(matches!(locate("model.bin"), Location::Local(p) if p == "model.bin"));
    assert!(matches!(locate("s3://b/k"), Location::Object { bucket, key } if bucket == "b" && key == "k"));
}

#[test]
fn parts_round_trip_keeps_state() {
    let mut m = scenario();
    m.get_empirical_error(None);
    let back = SlimMSE::from_parts(m.to_parts()).expect("valid parts");
    assert_eq!(back.error_totals(), m.error_totals());
    assert_eq!(back.optimizer().get_weights(), m.optimizer().get_weights());
    assert_eq!(names(&back.user_registry().keys()), vec!["u1", "u2"]);
    assert_eq!(names(&back.item_registry().keys()), vec!["i1", "i2", "i3"]);
    assert_eq!(back.interactions().get_user_items(0, None), vec![0, 1, 2]);
    assert_eq!(back.predict_rating(&k("u2"), &k("i3")), m.predict_rating(&k("u2"), &k("i3")));
    assert_eq!(back.recommend(&k("u2"), 5, None).len(), 2);
}

#[test]
fn parts_with_duplicate_keys_are_rejected() {
    let m = scenario();
    let mut p = m.to_parts();
    p.users.push(k("u1"));
    assert!(SlimMSE::from_parts(p).is_none());
    let mut q = m.to_parts();
    q.records[0][0].item = q.records[0][1].item;
    assert!(SlimMSE::from_parts(q).is_none());
}

#[test]
fn overwrite_moves_record_to_newest() {
    let mut s = UserItemInteractions::new(-5 * ONE, 10 * ONE, None);
    s.add_interaction(0, 0, 0, ONE, false);
    s.add_interaction(0, 1, 1, ONE, false);
    s.add_interaction(0, 0, 2, 3 * ONE, true);
    assert_eq!(s.get_user_items(0, Some(1)), vec![0]);
    assert_eq!(s.get_user_items(0, None), vec![1, 0]);
    s.add_interaction(0, 1, 3, 2 * ONE, false);
    assert_eq!(s.get_user_items(0, None), vec![1, 0]);
    assert_eq!(s.get_user_item_rating(0, 1, 9), ONE);
}
