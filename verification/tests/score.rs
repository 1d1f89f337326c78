use rust_bert::pipelines::score::{
    add_scores, best_remaining, copy_of, filled_flags, top_ranked, MIN_FINITE, NEG_INF, UNIT,
};

#[test]
fn scores_add_up() {
    assert_eq!(add_scores(-5, -7), -12);
    assert_eq!(add_scores(0, -3), -3);
    assert_eq!(add_scores(10, -3), 7);
}

#[test]
fn a_banned_score_absorbs() {
    assert_eq!(add_scores(NEG_INF, 3), NEG_INF);
    assert_eq!(add_scores(-3, NEG_INF), NEG_INF);
    assert_eq!(add_scores(NEG_INF, NEG_INF), NEG_INF);
}

#[test]
fn sums_stay_finite() {
    assert_eq!(add_scores(MIN_FINITE, -1), MIN_FINITE);
    assert_eq!(add_scores(MIN_FINITE, MIN_FINITE), MIN_FINITE);
    assert_eq!(add_scores(i64::MAX, 1), i64::MAX);
    assert_eq!(MIN_FINITE, i64::MIN + 1);
    assert_eq!(NEG_INF, i64::MIN);
    assert_eq!(UNIT, 1000);
}

#[test]
fn flags_are_filled() {
    assert_eq!(filled_flags(3, false), vec![false, false, false]);
    assert_eq!(filled_flags(2, true), vec![true, true]);
    assert_eq!(filled_flags(0, true), Vec::<bool>::new());
}

#[test]
fn values_are_copied() {
    assert_eq!(copy_of(&vec![3, -1, 4]), vec![3, -1, 4]);
    assert_eq!(copy_of(&vec![]), Vec::<i64>::new());
}

#[test]
fn the_best_remaining_position_has_the_highest_key() {
    let keys = vec![5, 9, 9, 1, 7];
    assert_eq!(best_remaining(&keys, &vec![false; 5]), Some(1));
    assert_eq!(
        best_remaining(&keys, &vec![false, true, false, false, false]),
        Some(2)
    );
    assert_eq!(
        best_remaining(&keys, &vec![false, true, true, false, false]),
        Some(4)
    );
    assert_eq!(best_remaining(&keys, &vec![true; 5]), None);
    assert_eq!(best_remaining(&vec![], &vec![]), None);
}

#[test]
fn positions_are_ranked_by_key_then_by_position() {
    let keys = vec![5, 9, 9, 1, 7];
    assert_eq!(top_ranked(&keys, 3), vec![1, 2, 4]);
    assert_eq!(top_ranked(&keys, 5), vec![1, 2, 4, 0, 3]);
    assert_eq!(top_ranked(&keys, 9), vec![1, 2, 4, 0, 3]);
    assert_eq!(top_ranked(&keys, 0), Vec::<usize>::new());
}

#[test]
fn banned_positions_are_ranked_last() {
    let keys = vec![NEG_INF, -3, NEG_INF, -1];
    assert_eq!(top_ranked(&keys, 4), vec![3, 1, 0, 2]);
}

#[test]
fn equal_keys_are_ranked_by_position() {
    assert_eq!(top_ranked(&vec![4, 4, 4], 2), vec![0, 1]);
}
