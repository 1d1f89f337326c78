use rust_bert::pipelines::ngram::apply_ngram_ban;
use rust_bert::pipelines::score::NEG_INF;

#[test]
fn a_token_that_completes_a_seen_trigram_is_banned() {
    let mut scores = vec![0, 0, 0, 0, 0];
    apply_ngram_ban(&mut scores, &vec![1, 2, 3, 1, 2], 3);
    assert_eq!(scores, vec![0, 0, 0, NEG_INF, 0]);
}

#[test]
fn a_token_that_completes_a_seen_bigram_is_banned() {
    let mut scores = vec![-1, -2, -3, -4, -5];
    apply_ngram_ban(&mut scores, &vec![4, 2, 3, 1, 2], 2);
    assert_eq!(scores, vec![-1, -2, -3, NEG_INF, -5]);
}

#[test]
fn every_occurrence_of_the_stem_bans_its_successor() {
    let mut scores = vec![0, 0, 0, 0, 0];
    apply_ngram_ban(&mut scores, &vec![2, 0, 2, 4, 2], 2);
    assert_eq!(scores, vec![NEG_INF, 0, 0, 0, NEG_INF]);
}

#[test]
fn with_size_one_every_seen_token_is_banned() {
    let mut scores = vec![7, 7, 7, 7, 7];
    apply_ngram_ban(&mut scores, &vec![1, 3, 3], 1);
    assert_eq!(scores, vec![7, NEG_INF, 7, NEG_INF, 7]);
}

#[test]
fn with_size_zero_nothing_is_banned() {
    let mut scores = vec![1, 2, 3];
    apply_ngram_ban(&mut scores, &vec![0, 1, 2, 0, 1], 0);
    assert_eq!(scores, vec![1, 2, 3]);
}

#[test]
fn a_history_shorter_than_the_size_bans_nothing() {
    let mut scores = vec![1, 2, 3];
    apply_ngram_ban(&mut scores, &vec![0, 1], 3);
    assert_eq!(scores, vec![1, 2, 3]);
    apply_ngram_ban(&mut scores, &vec![], 1);
    assert_eq!(scores, vec![1, 2, 3]);
}

#[test]
fn tokens_outside_the_vocabulary_are_ignored() {
    let mut scores = vec![1, 2, 3];
    apply_ngram_ban(&mut scores, &vec![9, -4, 9], 2);
    assert_eq!(scores, vec![1, 2, 3]);
}

#[test]
fn the_last_ngram_itself_does_not_count_as_seen() {
    let mut scores = vec![0, 0, 0];
    apply_ngram_ban(&mut scores, &vec![0, 1, 2], 3);
    assert_eq!(scores, vec![0, 0, 0]);
}
