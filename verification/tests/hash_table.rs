use cs431_homework::hash_table::growable_array::GrowableArray;
use cs431_homework::hash_table::split_order::reverse_bits;
use cs431_homework::hash_table::split_ordered_list::SplitOrderedList;

#[test]
fn growable_array_new_slots_are_empty() {
    let mut array: GrowableArray<u32> = GrowableArray::new();
    assert_eq!(*array.get(0), None);
    assert_eq!(*array.get(5000), None);
}

#[test]
fn growable_array_reads_back_what_was_written() {
    let mut array = GrowableArray::new();
    *array.get(0b001) = Some("cat");
    *array.get(0b111011) = Some("fox");
    *array.get(0b000110) = Some("owl");
    assert_eq!(*array.get(0b001), Some("cat"));
    assert_eq!(*array.get(0b111011), Some("fox"));
    assert_eq!(*array.get(0b000110), Some("owl"));
    assert_eq!(*array.get(0b000111), None);
}

#[test]
fn growable_array_keeps_slots_when_growing() {
    let mut array = GrowableArray::new();
    *array.get(1023) = Some(1u64);
    *array.get(1024) = Some(2);
    *array.get(1 << 20) = Some(3);
    *array.get((1 << 30) + 7) = Some(4);
    assert_eq!(*array.get(1023), Some(1));
    assert_eq!(*array.get(1024), Some(2));
    assert_eq!(*array.get(1 << 20), Some(3));
    assert_eq!(*array.get((1 << 30) + 7), Some(4));
    assert_eq!(*array.get(1 << 30), None);
    assert_eq!(*array.get(0), None);
}

#[test]
fn growable_array_overwrite_and_clear() {
    let mut array = GrowableArray::new();
    *array.get(77) = Some('a');
    *array.get(77) = Some('b');
    assert_eq!(*array.get(77), Some('b'));
    *array.get(77) = None;
    assert_eq!(*array.get(77), None);
}

#[test]
fn reverse_bits_exact_values() {
    assert_eq!(reverse_bits(0), 0);
    assert_eq!(reverse_bits(1), 1 << 63);
    assert_eq!(reverse_bits(1 << 63), 1);
    assert_eq!(reverse_bits(0b1011), 0xd000_0000_0000_0000);
    assert_eq!(reverse_bits(u64::MAX), u64::MAX);
    assert_eq!(reverse_bits(0x0123_4567_89ab_cdef), 0xf7b3_d591_e6a2_c480);
}

#[test]
fn reverse_bits_agrees_with_std() {
    let mut x: u64 = 0x9e37_79b9_7f4a_7c15;
    for _ in 0..1000 {
        assert_eq!(reverse_bits(x), x.reverse_bits());
        x = x.wrapping_mul(0x5851_f42d_4c95_7f2d).wrapping_add(1442695040888963407);
    }
}

#[test]
fn split_ordered_list_new_is_empty() {
    let mut map: SplitOrderedList<u32> = SplitOrderedList::new();
    assert_eq!(map.lookup(&0), None);
    assert_eq!(map.lookup(&12345), None);
}

#[test]
fn split_ordered_list_insert_lookup() {
    let mut map = SplitOrderedList::new();
    assert_eq!(map.insert(1, "one"), Ok(()));
    assert_eq!(map.insert(2, "two"), Ok(()));
    assert_eq!(map.insert(0, "zero"), Ok(()));
    assert_eq!(map.lookup(&1), Some(&"one"));
    assert_eq!(map.lookup(&2), Some(&"two"));
    assert_eq!(map.lookup(&0), Some(&"zero"));
    assert_eq!(map.lookup(&3), None);
}

#[test]
fn split_ordered_list_insert_taken_key_returns_value() {
    let mut map = SplitOrderedList::new();
    assert_eq!(map.insert(7, String::from("first")), Ok(()));
    assert_eq!(map.insert(7, String::from("second")), Err(String::from("second")));
    assert_eq!(map.lookup(&7), Some(&String::from("first")));
}

#[test]
fn split_ordered_list_delete() {
    let mut map = SplitOrderedList::new();
    assert_eq!(map.delete(&4), Err(()));
    assert_eq!(map.insert(4, 40u64), Ok(()));
    assert_eq!(map.insert(5, 50), Ok(()));
    assert_eq!(map.delete(&4), Ok(40));
    assert_eq!(map.delete(&4), Err(()));
    assert_eq!(map.lookup(&4), None);
    assert_eq!(map.lookup(&5), Some(&50));
    assert_eq!(map.insert(4, 41), Ok(()));
    assert_eq!(map.lookup(&4), Some(&41));
}

#[test]
fn split_ordered_list_largest_valid_key() {
    let mut map = SplitOrderedList::new();
    let big = usize::MAX / 2;
    assert_eq!(map.insert(big, 'z'), Ok(()));
    assert_eq!(map.insert(big - 1, 'y'), Ok(()));
    assert_eq!(map.lookup(&big), Some(&'z'));
    assert_eq!(map.lookup(&(big - 1)), Some(&'y'));
    assert_eq!(map.delete(&big), Ok('z'));
    assert_eq!(map.lookup(&big), None);
}

#[test]
fn split_ordered_list_many_keys_through_resizes() {
    let mut map = SplitOrderedList::new();
    for k in 0..2000usize {
        let key = k * 7919 % 2000;
        assert_eq!(map.insert(key, key * 10), Ok(()));
    }
    for key in 0..2000usize {
        assert_eq!(map.lookup(&key), Some(&(key * 10)));
    }
    for key in (0..2000usize).filter(|k| k % 3 == 0) {
        assert_eq!(map.delete(&key), Ok(key * 10));
    }
    for key in 0..2000usize {
        if key % 3 == 0 {
            assert_eq!(map.lookup(&key), None);
        } else {
            assert_eq!(map.lookup(&key), Some(&(key * 10)));
        }
    }
}

#[test]
fn split_ordered_list_default_is_empty() {
    let mut map: SplitOrderedList<i8> = Default::default();
    assert_eq!(map.lookup(&1), None);
}

fn regular_key(key: u64) -> u64 {
    reverse_bits(key | (1 << 63))
}

fn dummy_key(bucket: u64) -> u64 {
    if bucket == 0 {
        0
    } else {
        reverse_bits(bucket)
    }
}

#[test]
fn split_order_bucket_sentinel_precedes_its_keys() {
    let mut key: u64 = 0x2545_f491_4f6c_dd1d;
    for log_size in 1..20u32 {
        let size = 1u64 << log_size;
        for _ in 0..200 {
            key = key.wrapping_mul(6364136223846793005).wrapping_add(1) >> 1;
            assert!(dummy_key(key % size) < regular_key(key));
        }
    }
}

#[test]
fn split_order_parent_sentinel_precedes_child() {
    for bucket in 1..5000u64 {
        let top = 1u64 << (63 - bucket.leading_zeros());
        let parent = bucket - top;
        assert!(dummy_key(parent) < dummy_key(bucket));
    }
}

#[test]
fn split_order_keys_have_distinct_parity() {
    for k in 0..1000u64 {
        assert_eq!(regular_key(k) & 1, 1);
        assert_eq!(dummy_key(k) & 1, 0);
    }
}

#[test]
fn growable_array_reaches_the_largest_indices() {
    let mut array = GrowableArray::new();
    *array.get(usize::MAX) = Some(1u8);
    *array.get(1 << 63) = Some(2);
    *array.get(1 << 60) = Some(3);
    *array.get(5) = Some(4);
    assert_eq!(*array.get(usize::MAX), Some(1));
    assert_eq!(*array.get(1 << 63), Some(2));
    assert_eq!(*array.get(1 << 60), Some(3));
    assert_eq!(*array.get(5), Some(4));
    assert_eq!(*array.get(usize::MAX - 1), None);
}

#[test]
fn split_ordered_list_delete_then_insert_again() {
    let mut map = SplitOrderedList::new();
    for key in 0..4usize {
        assert_eq!(map.insert(key, key), Ok(()));
    }
    for key in 0..4usize {
        assert_eq!(map.delete(&key), Ok(key));
    }
    assert_eq!(map.insert(9, 90), Ok(()));
    assert_eq!(map.lookup(&9), Some(&90));
    for key in 0..4usize {
        assert_eq!(map.lookup(&key), None);
    }
}

#[test]
fn split_ordered_list_bucket_run() {
    for log_size in 1..12u32 {
        let size = 1u64 << log_size;
        for key in (0..3000u64).map(|k| k * 2654435761 % (1 << 40)) {
            let bucket = key % size;
            for other in 0..size.min(64) {
                if other != bucket {
                    let d = dummy_key(other);
                    assert!(!(dummy_key(bucket) < d && d < regular_key(key)));
                }
            }
        }
    }
}

#[test]
fn growable_array_prints_with_debug() {
    let mut array = GrowableArray::new();
    *array.get(3) = Some(1u8);
    assert!(!format!("{:?}", array).is_empty());
}
