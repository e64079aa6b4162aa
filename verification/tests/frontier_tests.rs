use life_engine::frontier::Frontier;

#[test]
fn merge_into_empty_sorts_and_dedups() {
    let mut f = Frontier::empty();
    f.merge(vec![5, 3, 5, 9, 3]);
    assert_eq!(f.items, vec![3, 5, 9]);
}

#[test]
fn merge_into_nonempty_keeps_order_without_duplicates() {
    let mut f = Frontier::empty();
    f.merge(vec![3, 5, 9]);
    f.merge(vec![4, 9, 1, 9]);
    assert_eq!(f.items, vec![1, 3, 4, 5, 9]);
}

#[test]
fn merge_of_present_value_is_a_no_op() {
    let mut f = Frontier::empty();
    f.merge(vec![2, 4, 6]);
    f.merge(vec![4]);
    assert_eq!(f.items, vec![2, 4, 6]);
}

#[test]
fn merge_handles_both_ends() {
    let mut f = Frontier::empty();
    f.merge(vec![3, 5]);
    f.merge(vec![7, 0]);
    assert_eq!(f.items, vec![0, 3, 5, 7]);
    f.merge(vec![]);
    assert_eq!(f.items, vec![0, 3, 5, 7]);
}

#[test]
fn drain_hands_off_and_empties() {
    let mut f = Frontier::empty();
    f.merge(vec![8, 2, 8]);
    let taken = f.drain();
    assert_eq!(taken, vec![2, 8]);
    assert!(f.items.is_empty());
    let taken_again = f.drain();
    assert!(taken_again.is_empty());
}
