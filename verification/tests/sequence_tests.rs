use collection_core::sequence_ops::Sequence;

fn is_even(x: i32) -> bool {
    x % 2 == 0
}

#[test]
fn new_sequence_is_empty() {
    let s = Sequence::new();
    assert_eq!(s.length(), 0);
    assert_eq!(s.to_vec(), Vec::<i32>::new());
    assert_eq!(s.get(0), None);
}

#[test]
fn from_vec_keeps_elements_and_order() {
    let s = Sequence::from_vec(vec![10, 20, 30, 40]);
    assert_eq!(s.length(), 4);
    assert_eq!(s.to_vec(), vec![10, 20, 30, 40]);
}

#[test]
fn append_adds_one_element_at_the_end() {
    let mut s = Sequence::from_vec(vec![10, 20, 30, 40]);
    let before = s.length();
    s.append(50);
    assert_eq!(s.length(), before + 1);
    assert_eq!(s.to_vec(), vec![10, 20, 30, 40, 50]);
}

#[test]
fn get_inside_the_bounds_yields_the_element() {
    let s = Sequence::from_vec(vec![10, 20, 30, 40, 50]);
    assert_eq!(s.get(0), Some(10));
    assert_eq!(s.get(1), Some(20));
    assert_eq!(s.get(2), Some(30));
    assert_eq!(s.get(3), Some(40));
    assert_eq!(s.get(4), Some(50));
}

#[test]
fn get_at_and_past_the_length_yields_none() {
    let s = Sequence::from_vec(vec![10, 20, 30, 40, 50]);
    assert_eq!(s.get(5), None);
    assert_eq!(s.get(6), None);
    assert_eq!(s.get(1000), None);
    assert_eq!(s.get(usize::MAX), None);
}

#[test]
fn filtered_keeps_every_element_when_all_are_accepted() {
    let s = Sequence::from_vec(vec![10, 20, 30, 40, 50]);
    let evens = s.filtered(is_even);
    assert_eq!(evens.to_vec(), vec![10, 20, 30, 40, 50]);
}

#[test]
fn filtered_leaves_out_rejected_elements() {
    let s = Sequence::from_vec(vec![1, 2, 3, 4, 5, 6]);
    let evens = s.filtered(is_even);
    assert_eq!(evens.to_vec(), vec![2, 4, 6]);
}

#[test]
fn filtered_does_not_change_the_source() {
    let s = Sequence::from_vec(vec![1, 2, 3, 4, 5, 6]);
    let odds = s.filtered(|x| x % 2 != 0);
    assert_eq!(odds.to_vec(), vec![1, 3, 5]);
    assert_eq!(s.to_vec(), vec![1, 2, 3, 4, 5, 6]);
    assert_eq!(s.length(), 6);
}

#[test]
fn filtered_keeps_order_and_repeats() {
    let s = Sequence::from_vec(vec![3, 1, 3, 2, 3, -4, 0]);
    let kept = s.filtered(|x| x != 1);
    assert_eq!(kept.to_vec(), vec![3, 3, 2, 3, -4, 0]);
}

#[test]
fn filtered_of_empty_is_empty() {
    let s = Sequence::new();
    assert_eq!(s.filtered(is_even).length(), 0);
}

#[test]
fn filtered_with_nothing_accepted_is_empty() {
    let s = Sequence::from_vec(vec![1, 3, 5]);
    assert_eq!(s.filtered(is_even).to_vec(), Vec::<i32>::new());
}

#[test]
fn retain_keeps_only_accepted_elements() {
    let mut s = Sequence::from_vec(vec![10, 20, 30, 40, 50]);
    s.retain(|x| x == 20);
    assert_eq!(s.to_vec(), vec![20]);
    assert_eq!(s.length(), 1);
}

#[test]
fn retain_keeps_order_and_repeats() {
    let mut s = Sequence::from_vec(vec![5, -2, 5, 7, -2, 9]);
    s.retain(|x| x > 0);
    assert_eq!(s.to_vec(), vec![5, 5, 7, 9]);
}

#[test]
fn retain_with_everything_accepted_changes_nothing() {
    let mut s = Sequence::from_vec(vec![2, 4, 6]);
    s.retain(is_even);
    assert_eq!(s.to_vec(), vec![2, 4, 6]);
}

#[test]
fn retain_with_nothing_accepted_empties() {
    let mut s = Sequence::from_vec(vec![1, 3, 5]);
    s.retain(is_even);
    assert_eq!(s.length(), 0);
    assert_eq!(s.get(0), None);
}

#[test]
fn retain_agrees_with_filtered() {
    let source = vec![7, 8, 9, 10, 11, 12, 8];
    let filtered = Sequence::from_vec(source.clone()).filtered(|x| x % 3 != 0);
    let mut retained = Sequence::from_vec(source);
    retained.retain(|x| x % 3 != 0);
    assert_eq!(filtered.to_vec(), vec![7, 8, 10, 11, 8]);
    assert_eq!(retained.to_vec(), filtered.to_vec());
}

#[test]
fn sequence_walkthrough() {
    let mut s = Sequence::from_vec(vec![10, 20, 30, 40]);
    assert_eq!(s.length(), 4);
    s.append(50);
    assert_eq!(s.to_vec(), vec![10, 20, 30, 40, 50]);
    assert_eq!(s.get(3), Some(40));
    let evens = s.filtered(is_even);
    assert_eq!(evens.to_vec(), vec![10, 20, 30, 40, 50]);
    s.retain(|x| x == 20);
    assert_eq!(s.to_vec(), vec![20]);
}
