use tectonic::Simple09Set;

#[test]
fn intersection_of_two_sets_is_a_new_set() {
    let result = Simple09Set::new(&[1, 3, 7]).intersection(Simple09Set::new(&[2, 3, 4]));
    assert_eq!(result, Simple09Set::new(&[3]));
    assert_eq!(result.len(), 1);
    assert!(result.contains(3));
}

#[test]
fn set_operations_leave_their_operands_alone() {
    let a = Simple09Set::new(&[1, 2, 3]);
    let b = Simple09Set::new(&[2, 3, 4]);
    let _ = a.intersection(b);
    let _ = a.union(b);
    let _ = a.without(b);
    let _ = a.difference(b);
    assert_eq!(a.as_vec_u8(), vec![1, 2, 3]);
    assert_eq!(b.as_vec_u8(), vec![2, 3, 4]);
}

#[test]
fn union_and_without_give_the_expected_members() {
    let a = Simple09Set::new(&[0, 5, 9]);
    let b = Simple09Set::new(&[5, 6]);
    assert_eq!(a.union(b).as_vec_u8(), vec![0, 5, 6, 9]);
    assert_eq!(a.without(b).as_vec_u8(), vec![0, 9]);
    assert_eq!(b.without(a).as_vec_u8(), vec![6]);
    assert_eq!(a.without(a), Simple09Set::default());
}

#[test]
fn difference_keeps_the_shared_digits() {
    let a = Simple09Set::new(&[1, 2, 3]);
    let b = Simple09Set::new(&[2, 3, 4]);
    assert_eq!(a.difference(b).as_vec_u8(), vec![2, 3]);
    assert_eq!(a.difference(b), a.intersection(b));
    assert_eq!(a.difference(Simple09Set::default()), Simple09Set::default());
}

#[test]
fn numbers_above_nine_are_no_members() {
    let mut set = Simple09Set::new(&[10, 200, 4]);
    assert_eq!(set.as_vec_u8(), vec![4]);
    set.insert(10);
    set.insert(255);
    assert_eq!(set.len(), 1);
    assert!(!set.contains(10));
    assert!(!set.contains(255));
    set.remove(10);
    assert_eq!(set.as_vec_u8(), vec![4]);
}

#[test]
fn members_come_out_in_ascending_order() {
    let set = Simple09Set::new(&[9, 0, 7, 3, 3, 1]);
    assert_eq!(set.as_vec_u8(), vec![0, 1, 3, 7, 9]);
    assert_eq!(set.len(), 5);
    let all = Simple09Set::new(&[0, 1, 2, 3, 4, 5, 6, 7, 8, 9]);
    assert_eq!(all.len(), 10);
    assert_eq!(all.as_vec_u8(), vec![0, 1, 2, 3, 4, 5, 6, 7, 8, 9]);
}

#[test]
fn insert_and_remove_twice_change_nothing_more() {
    let mut set = Simple09Set::default();
    set.insert(6);
    let once = set;
    set.insert(6);
    assert_eq!(set, once);
    set.remove(6);
    let gone = set;
    set.remove(6);
    assert_eq!(set, gone);
    assert!(set.is_empty());
}

#[test]
fn sets_with_the_same_members_are_equal() {
    let mut built = Simple09Set::default();
    built.insert(8);
    built.insert(2);
    built.insert(5);
    built.remove(5);
    assert_eq!(built, Simple09Set::new(&[2, 8]));
    assert_ne!(built, Simple09Set::new(&[2]));
}
