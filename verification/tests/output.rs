use rust_bert::pipelines::hypothesis::{BeamGroup, BeamPolicy, Hypothesis};
use rust_bert::pipelines::output::{rank_entries, select_outputs};

fn policy(num_beams: usize, max_length: u64, length_penalty: u32) -> BeamPolicy {
    BeamPolicy {
        num_beams,
        max_length,
        length_penalty,
        early_stopping: false,
        eos_token_id: None,
    }
}

fn live(tokens: Vec<i64>, score: i64, slot: usize) -> Hypothesis {
    Hypothesis { tokens, score, finished: false, slot }
}

fn ended(tokens: Vec<i64>, score: i64) -> Hypothesis {
    Hypothesis { tokens, score, finished: true, slot: 0 }
}

fn group_of(policy: BeamPolicy, completed: Vec<Hypothesis>, live: Vec<Hypothesis>) -> BeamGroup {
    BeamGroup { live, completed, policy }
}

#[test]
fn entries_are_ranked_by_adjusted_score() {
    let entries = vec![
        ended(vec![0, 1, 2, 3], -8),
        ended(vec![0, 1], -2),
        ended(vec![0, 1, 2], -9),
        ended(vec![0, 1, 2, 3, 4], -5),
    ];
    assert_eq!(rank_entries(&entries, 4, &policy(4, 9, 1)), vec![1, 3, 0, 2]);
    assert_eq!(rank_entries(&entries, 2, &policy(4, 9, 1)), vec![1, 3]);
    assert_eq!(rank_entries(&entries, 4, &policy(4, 9, 0)), vec![1, 3, 0, 2]);
    assert_eq!(rank_entries(&entries, 9, &policy(4, 9, 2)), vec![3, 0, 1, 2]);
    assert_eq!(rank_entries(&entries, 0, &policy(4, 9, 1)), Vec::<usize>::new());
}

#[test]
fn among_equal_adjusted_scores_the_earlier_entry_wins() {
    let entries = vec![
        ended(vec![0, 1, 2], -6),
        ended(vec![0, 1], -4),
        ended(vec![0, 1, 2, 3], -8),
    ];
    assert_eq!(rank_entries(&entries, 3, &policy(3, 9, 1)), vec![0, 1, 2]);
}

#[test]
fn the_best_finished_sequences_come_back_best_first() {
    let group = group_of(
        policy(3, 9, 1),
        vec![
            ended(vec![0, 1, 2, 3], -8),
            ended(vec![0, 1], -2),
            ended(vec![0, 1, 2], -9),
        ],
        vec![live(vec![0, 7, 7, 7], -1, 0)],
    );
    match select_outputs(&group, 2) {
        Ok(list) => assert_eq!(list, vec![vec![0, 1], vec![0, 1, 2, 3]]),
        Err(e) => panic!("unexpected report: {:?}", e),
    }
    match select_outputs(&group, 3) {
        Ok(list) => assert_eq!(list, vec![vec![0, 1], vec![0, 1, 2, 3], vec![0, 1, 2]]),
        Err(e) => panic!("unexpected report: {:?}", e),
    }
}

#[test]
fn too_few_finished_hypotheses_are_reported_with_the_best_live_ones() {
    let group = group_of(
        policy(3, 9, 1),
        vec![ended(vec![0, 1, 2, 3], -8)],
        vec![
            live(vec![0, 5, 5, 5], -7, 0),
            live(vec![0, 6, 6, 6], -3, 1),
            live(vec![0, 7, 7, 7], -5, 2),
        ],
    );
    match select_outputs(&group, 3) {
        Ok(list) => panic!("unexpected result: {:?}", list),
        Err(e) => {
            assert_eq!(e.requested, 3);
            assert_eq!(e.completed, 1);
            assert_eq!(
                e.sequences,
                vec![vec![0, 1, 2, 3], vec![0, 6, 6, 6], vec![0, 7, 7, 7]]
            );
        }
    }
}

#[test]
fn the_report_holds_what_there_is() {
    let group = group_of(policy(3, 9, 1), vec![], vec![live(vec![0, 5], -7, 0)]);
    match select_outputs(&group, 3) {
        Ok(list) => panic!("unexpected result: {:?}", list),
        Err(e) => {
            assert_eq!(e.requested, 3);
            assert_eq!(e.completed, 0);
            assert_eq!(e.sequences, vec![vec![0, 5]]);
        }
    }
    let empty = group_of(policy(3, 9, 1), vec![], vec![]);
    match select_outputs(&empty, 1) {
        Ok(list) => panic!("unexpected result: {:?}", list),
        Err(e) => {
            assert_eq!(e.completed, 0);
            assert!(e.sequences.is_empty());
        }
    }
}

#[test]
fn nothing_asked_for_gives_nothing() {
    let group = group_of(policy(3, 9, 1), vec![ended(vec![0, 1], -2)], vec![]);
    match select_outputs(&group, 0) {
        Ok(list) => assert!(list.is_empty()),
        Err(e) => panic!("unexpected report: {:?}", e),
    }
}
