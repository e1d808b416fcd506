use tectonic::Simple09Set;

#[test]
fn test_simple_09_set() {
    let mut set = Simple09Set::default();

    assert!(set.is_empty());
    assert_eq!(set.len(), 0);
    for n in 0..=9 {
        assert!(!set.contains(n));
    }

    set.insert(2);
    assert!(!set.is_empty());
    assert_eq!(set.len(), 1);
    assert!(set.contains(2));

    set.insert(4);
    assert_eq!(set.len(), 2);
    assert!(set.contains(2));
    assert!(set.contains(4));

    set.remove(2);
    assert_eq!(set.len(), 1);
    assert!(!set.contains(2));
    assert!(set.contains(4));
}

#[test]
fn test_simple_09_set_new() {
    let set = Simple09Set::new(&[1, 3, 7]);

    assert_eq!(set.len(), 3);
    assert!(set.contains(1));
    assert!(set.contains(3));
    assert!(set.contains(7));
}

#[test]
fn test_simple_09_set_insert_remove() {
    let mut set = Simple09Set::default();

    for digit in 0..=9 {
        assert_eq!(set.len(), 0);
        set.insert(digit);
        assert_eq!(set.len(), 1);
        assert!(set.contains(digit));
        for digit2 in 0..=9 {
            if digit2 != digit {
                assert!(!set.contains(digit2));
            }
        }
        set.remove(digit);
        assert_eq!(set.len(), 0);
        assert!(!set.contains(digit));
    }
}

#[test]
fn test_simple_09_set_intersection() {
    let set1 = Simple09Set::new(&[1, 2, 3]);
    let set2 = Simple09Set::new(&[2, 3, 4]);

    // (1 2 3) intersection (2 3 4) -> (2 3)
    let set1 = set1.intersection(set2);

    assert_eq!(set1.len(), 2);
    assert!(!set1.contains(1));
    assert!(set1.contains(2));
    assert!(set1.contains(3));
}

#[test]
fn test_simple_09_set_union() {
    let set1 = Simple09Set::new(&[1, 2, 3]);
    let set2 = Simple09Set::new(&[2, 3, 4]);

    // (1 2 3) union (2 3 4) -> (1 2 3 4)
    let set1 = set1.union(set2);

    assert_eq!(set1.len(), 4);
    assert!(set1.contains(1));
    assert!(set1.contains(2));
    assert!(set1.contains(3));
    assert!(set1.contains(4));
}
