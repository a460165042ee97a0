use algorithm_visualizer::Operation;

#[test]
fn apply_write_copies() {
    let mut numbers = vec![10, 20, 30];
    Operation::Write(0, 2).apply(&mut numbers);
    assert_eq!(numbers, vec![30, 20, 30]);
}

#[test]
fn apply_write_value_sets() {
    let mut numbers = vec![10, 20, 30];
    Operation::WriteValue(1, 99).apply(&mut numbers);
    assert_eq!(numbers, vec![10, 99, 30]);
}

#[test]
fn apply_swap_exchanges() {
    let mut numbers = vec![10, 20, 30];
    Operation::Swap(0, 2).apply(&mut numbers);
    assert_eq!(numbers, vec![30, 20, 10]);
}

#[test]
fn apply_swap_twice_restores() {
    let mut numbers = vec![4, 8, 15, 16];
    Operation::<i32>::Swap(1, 3).apply(&mut numbers);
    Operation::<i32>::Swap(1, 3).apply(&mut numbers);
    assert_eq!(numbers, vec![4, 8, 15, 16]);
}

#[test]
fn apply_swap_same_position() {
    let mut numbers = vec![4, 8];
    Operation::<i32>::Swap(1, 1).apply(&mut numbers);
    assert_eq!(numbers, vec![4, 8]);
}

#[test]
fn comparisons_change_nothing() {
    let mut numbers = vec![3, 1, 2];
    Operation::<i32>::Compare(0, 1).apply(&mut numbers);
    Operation::<i32>::CompareToValue(2).apply(&mut numbers);
    assert_eq!(numbers, vec![3, 1, 2]);
}

#[test]
fn shift_index_moves_positions() {
    let mut op = Operation::<i32>::Compare(1, 2);
    op.shift_index(5);
    assert_eq!(op, Operation::Compare(6, 7));

    let mut op = Operation::<i32>::CompareToValue(0);
    op.shift_index(3);
    assert_eq!(op, Operation::CompareToValue(3));

    let mut op = Operation::<i32>::Write(4, 0);
    op.shift_index(1);
    assert_eq!(op, Operation::Write(5, 1));

    let mut op = Operation::WriteValue(2, -7);
    op.shift_index(10);
    assert_eq!(op, Operation::WriteValue(12, -7));

    let mut op = Operation::<i32>::Swap(0, 9);
    op.shift_index(0);
    assert_eq!(op, Operation::Swap(0, 9));
}

#[test]
fn shifted_operations_act_on_a_stretch() {
    // Operations for the stretch [2, 1] moved up by 3 sort positions 3 and 4 only.
    let mut numbers = vec![9, 8, 7, 2, 1, 0];
    let mut op = Operation::<i32>::Swap(0, 1);
    op.shift_index(3);
    op.apply(&mut numbers);
    assert_eq!(numbers, vec![9, 8, 7, 1, 2, 0]);
}
