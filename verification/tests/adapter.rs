use rust_bert::pipelines::adapter::{BackendError, ModelAdapter, TableModel};

fn model() -> TableModel {
    TableModel::new(vec![vec![-1, -2, -3], vec![-4, -5, -6], vec![-7, -8, -9]], Some(2))
}

#[test]
fn a_table_model_names_its_vocabulary() {
    let m = model();
    assert_eq!(m.vocab_size(), 3);
    assert_eq!(m.eos_token_id(), Some(2));
    assert!(m.slots.is_empty());
}

#[test]
fn a_table_model_continues_its_input() {
    let mut m = model();
    assert_eq!(m.init(&vec![1, 0], 3), Ok(vec![1, 0]));
    assert_eq!(m.slots, vec![Vec::<i64>::new(); 3]);
    assert_eq!(m.init(&vec![2], 0), Ok(vec![2]));
    assert!(m.slots.is_empty());
}

#[test]
fn a_table_model_scores_by_the_last_token() {
    let mut m = model();
    assert_eq!(m.init(&vec![1, 0], 2), Ok(vec![1, 0]));
    let rows = m.step(&vec![vec![1, 0], vec![1, 2]]);
    assert_eq!(rows, Ok(vec![vec![-1, -2, -3], vec![-7, -8, -9]]));
    assert_eq!(m.slots, vec![vec![1, 0], vec![1, 2]]);
    let rows = m.step(&vec![vec![1], vec![]]);
    assert_eq!(rows, Ok(vec![vec![-4, -5, -6], vec![-7, -8, -9]]));
    assert_eq!(m.slots, vec![vec![1, 0, 1], vec![1, 2]]);
}

#[test]
fn a_table_model_fails_on_a_token_without_a_row() {
    let mut m = model();
    assert_eq!(m.init(&vec![1], 2), Ok(vec![1]));
    assert_eq!(
        m.step(&vec![vec![1], vec![3]]),
        Err(BackendError::DimensionMismatch)
    );
    assert_eq!(
        m.step(&vec![vec![-1], vec![1]]),
        Err(BackendError::DimensionMismatch)
    );
    assert_eq!(
        m.step(&vec![vec![], vec![1]]),
        Err(BackendError::DimensionMismatch)
    );
    assert_eq!(m.slots, vec![Vec::<i64>::new(); 2]);
}

#[test]
fn reordering_hands_each_slot_the_state_of_its_parent() {
    let mut m = model();
    assert_eq!(m.init(&vec![0], 3), Ok(vec![0]));
    assert!(m.step(&vec![vec![0, 1], vec![0, 2], vec![0, 0]]).is_ok());
    let before = m.slots.clone();
    let permutation = vec![2, 0, 0];
    assert_eq!(m.reorder(&permutation), Ok(()));
    assert_eq!(m.slots.len(), 3);
    for i in 0..3 {
        assert_eq!(m.slots[i], before[permutation[i]]);
    }
    assert_eq!(m.slots, vec![vec![0, 0], vec![0, 1], vec![0, 1]]);
}

#[test]
fn reordering_may_drop_slots() {
    let mut m = model();
    assert_eq!(m.init(&vec![0], 3), Ok(vec![0]));
    assert!(m.step(&vec![vec![0, 1], vec![0, 2], vec![0, 0]]).is_ok());
    assert_eq!(m.reorder(&vec![1]), Ok(()));
    assert_eq!(m.slots, vec![vec![0, 2]]);
    assert_eq!(m.reorder(&vec![]), Ok(()));
    assert!(m.slots.is_empty());
}

#[test]
fn a_table_model_wants_a_tail_for_each_slot() {
    let mut m = model();
    assert_eq!(m.init(&vec![1], 2), Ok(vec![1]));
    assert_eq!(m.step(&vec![vec![1]]), Err(BackendError::DimensionMismatch));
    assert_eq!(
        m.step(&vec![vec![1], vec![1], vec![1]]),
        Err(BackendError::DimensionMismatch)
    );
    assert_eq!(m.slots, vec![Vec::<i64>::new(); 2]);
}

#[test]
fn reordering_by_a_slot_that_is_not_there_is_a_fault() {
    let mut m = model();
    assert_eq!(m.init(&vec![0], 2), Ok(vec![0]));
    assert!(m.step(&vec![vec![0, 1], vec![0, 2]]).is_ok());
    assert_eq!(m.reorder(&vec![0, 2]), Err(BackendError::DimensionMismatch));
    assert_eq!(m.slots, vec![vec![0, 1], vec![0, 2]]);
}
