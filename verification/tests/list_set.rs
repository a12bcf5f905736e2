use cs431_homework::list_set::fine_grained::FineGrainedListSet;
use cs431_homework::list_set::optimistic_fine_grained::OptimisticFineGrainedListSet;

#[test]
fn fine_grained_new_is_empty() {
    let set: FineGrainedListSet<i32> = FineGrainedListSet::new();
    assert!(!set.contains(&0));
    assert!(set.iter().next().is_none());
}

#[test]
fn fine_grained_insert_contains_remove() {
    let mut set = FineGrainedListSet::new();
    assert!(set.insert(3));
    assert!(set.insert(1));
    assert!(set.insert(2));
    assert!(!set.insert(2));
    assert!(set.contains(&1));
    assert!(set.contains(&2));
    assert!(set.contains(&3));
    assert!(!set.contains(&4));
    assert!(set.remove(&2));
    assert!(!set.remove(&2));
    assert!(!set.contains(&2));
    assert!(set.contains(&1));
    assert!(set.contains(&3));
}

#[test]
fn fine_grained_iter_is_sorted() {
    let mut set = FineGrainedListSet::new();
    for x in [5, -1, 9, 0, 7, 3, 5, -1] {
        set.insert(x);
    }
    let mut it = set.iter();
    let mut seen = Vec::new();
    while let Some(x) = it.next() {
        seen.push(*x);
    }
    assert_eq!(seen, vec![-1, 0, 3, 5, 7, 9]);
    assert!(it.next().is_none());
}

#[test]
fn fine_grained_remove_then_insert_again() {
    let mut set = FineGrainedListSet::new();
    assert!(set.insert(10u64));
    assert!(set.remove(&10));
    assert!(!set.contains(&10));
    assert!(set.insert(10));
    assert!(set.contains(&10));
}

#[test]
fn fine_grained_remove_head_middle_tail() {
    let mut set = FineGrainedListSet::new();
    for x in 1..=5u32 {
        assert!(set.insert(x));
    }
    assert!(set.remove(&1));
    assert!(set.remove(&3));
    assert!(set.remove(&5));
    let mut it = set.iter();
    assert_eq!(it.next(), Some(&2));
    assert_eq!(it.next(), Some(&4));
    assert_eq!(it.next(), None);
}

#[test]
fn fine_grained_default_is_empty() {
    let set: FineGrainedListSet<u8> = Default::default();
    assert!(set.iter().next().is_none());
}

#[test]
fn fine_grained_strings() {
    let mut set = FineGrainedListSet::new();
    assert!(set.insert(String::from("pear")));
    assert!(set.insert(String::from("apple")));
    assert!(!set.insert(String::from("pear")));
    assert!(set.contains(&String::from("apple")));
    let mut it = set.iter();
    assert_eq!(it.next().map(|s| s.as_str()), Some("apple"));
    assert_eq!(it.next().map(|s| s.as_str()), Some("pear"));
    assert_eq!(it.next(), None);
}

#[test]
fn optimistic_new_is_empty() {
    let set: OptimisticFineGrainedListSet<i32> = OptimisticFineGrainedListSet::new();
    assert!(!set.contains(&0));
    assert!(set.iter().next().is_none());
}

#[test]
fn optimistic_insert_contains_remove() {
    let mut set = OptimisticFineGrainedListSet::new();
    assert!(set.insert(30));
    assert!(set.insert(10));
    assert!(set.insert(20));
    assert!(!set.insert(10));
    assert!(set.contains(&10));
    assert!(!set.contains(&15));
    assert!(set.remove(&10));
    assert!(!set.remove(&10));
    assert!(!set.contains(&10));
    assert!(set.contains(&20));
    assert!(set.contains(&30));
}

#[test]
fn optimistic_iter_yields_ok_in_order() {
    let mut set = OptimisticFineGrainedListSet::new();
    for x in [4u16, 2, 8, 6] {
        set.insert(x);
    }
    let mut it = set.iter();
    let mut seen = Vec::new();
    while let Some(item) = it.next() {
        seen.push(*item.unwrap());
    }
    assert_eq!(seen, vec![2, 4, 6, 8]);
}

#[test]
fn optimistic_default_is_empty() {
    let set: OptimisticFineGrainedListSet<i64> = Default::default();
    assert!(set.iter().next().is_none());
}

#[test]
fn optimistic_many_elements() {
    let mut set = OptimisticFineGrainedListSet::new();
    for x in (0..200u32).rev() {
        assert!(set.insert(x * 3 % 200));
    }
    for x in 0..200u32 {
        assert!(set.contains(&x));
    }
    for x in (0..200u32).filter(|x| x % 2 == 0) {
        assert!(set.remove(&x));
    }
    let mut it = set.iter();
    let mut seen = Vec::new();
    while let Some(item) = it.next() {
        seen.push(*item.unwrap());
    }
    let expected: Vec<u32> = (0..200).filter(|x| x % 2 == 1).collect();
    assert_eq!(seen, expected);
}

#[derive(Debug, Clone)]
struct Tagged(u32, &'static str);

impl PartialEq for Tagged {
    fn eq(&self, other: &Self) -> bool {
        self.0 == other.0
    }
}

impl Eq for Tagged {}

impl PartialOrd for Tagged {
    fn partial_cmp(&self, other: &Self) -> Option<std::cmp::Ordering> {
        Some(self.cmp(other))
    }
}

impl Ord for Tagged {
    fn cmp(&self, other: &Self) -> std::cmp::Ordering {
        self.0.cmp(&other.0)
    }
}

#[test]
fn fine_grained_values_equal_by_order_count_once() {
    let mut set = FineGrainedListSet::new();
    assert!(set.insert(Tagged(1, "first")));
    assert!(!set.insert(Tagged(1, "second")));
    assert!(set.contains(&Tagged(1, "other")));
    let mut it = set.iter();
    assert_eq!(it.next().map(|t| t.1), Some("first"));
    assert!(it.next().is_none());
    assert!(set.remove(&Tagged(1, "any")));
    assert!(!set.contains(&Tagged(1, "first")));
}

#[test]
fn optimistic_values_equal_by_order_count_once() {
    let mut set = OptimisticFineGrainedListSet::new();
    assert!(set.insert(Tagged(7, "a")));
    assert!(set.insert(Tagged(3, "b")));
    assert!(!set.insert(Tagged(7, "c")));
    assert!(set.remove(&Tagged(3, "d")));
    let mut it = set.iter();
    assert_eq!(it.next().map(|t| t.unwrap().1), Some("a"));
    assert!(it.next().is_none());
}

#[test]
fn sets_and_iterators_print_with_debug() {
    let mut set = FineGrainedListSet::new();
    set.insert(1u8);
    assert!(!format!("{:?}", set).is_empty());
    assert!(!format!("{:?}", set.iter()).is_empty());
    let mut other = OptimisticFineGrainedListSet::new();
    other.insert(2u8);
    assert!(!format!("{:?}", other).is_empty());
    assert!(!format!("{:?}", other.iter()).is_empty());
}
