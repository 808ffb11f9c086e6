//! Exact values, edge cases, and one case of each law.

use std::cmp::Ordering;
use std::collections::hash_map::DefaultHasher;
use std::hash::{Hash, Hasher};

use xar::{
    ElementAddress, ExponentialArray, RangeBound, RangeError, TryReserveErrorKind, Xar,
    DEFAULT_BASE_SHIFT, DEFAULT_CHUNKS,
};

type Small<T> = ExponentialArray<T, 1, 4>;

fn addresses<T, const BASE_SHIFT: usize, const CHUNKS: usize>(
    array: &ExponentialArray<T, BASE_SHIFT, CHUNKS>,
) -> Vec<ElementAddress> {
    (0..array.len()).map(|index| array.ptr(index).unwrap()).collect()
}

fn digest<T: Hash>(value: &T) -> u64 {
    let mut hasher = DefaultHasher::new();
    value.hash(&mut hasher);
    hasher.finish()
}

#[test]
fn max_capacity_sums_the_chunks() {
    // 2 + 2 + 4 + 8
    assert_eq!(Small::<u8>::max_capacity(), 16);
    assert_eq!(ExponentialArray::<u8, 0, 1>::max_capacity(), 1);
    assert_eq!(ExponentialArray::<u8, 3, 0>::max_capacity(), 0);
    assert_eq!(ExponentialArray::<u8, 64, 4>::max_capacity(), 0);
    assert_eq!(
        Xar::<u8>::max_capacity(),
        1 << (DEFAULT_BASE_SHIFT + DEFAULT_CHUNKS - 1)
    );
}

#[test]
fn max_capacity_stops_at_what_can_be_addressed() {
    // Chunks of 2^61 and 2^61 elements of four bytes do not fit an `isize`; those of
    // 2^60 and 2^60 do, and the third would have 2^61 slots again.
    assert_eq!(ExponentialArray::<u32, 60, 8>::max_capacity(), 1 << 61);
    assert_eq!(ExponentialArray::<u32, 61, 8>::max_capacity(), 0);
    assert_eq!(ExponentialArray::<(), 62, 2>::max_capacity(), 1 << 63);
    assert_eq!(ExponentialArray::<(), 62, 3>::max_capacity(), usize::MAX);
    assert_eq!(ExponentialArray::<(), 63, 9>::max_capacity(), usize::MAX);
}

#[test]
fn an_array_without_usable_chunks_stays_empty() {
    let mut xs = ExponentialArray::<u8, 64, 4>::new();
    assert!(xs.is_empty());
    assert_eq!(xs.get(0), None);
    assert_eq!(xs.pop(), None);
    assert_eq!(xs.iter().next(), None);
    assert_eq!(xs.chunks().next(), None);
    let error = xs.try_push(1).err().unwrap();
    assert_eq!(
        error.error().kind(),
        TryReserveErrorKind::CapacityExceeded {
            requested: 1,
            max: 0
        }
    );
}

#[test]
fn elements_without_a_size_reach_the_last_index() {
    let mut xs = ExponentialArray::<(), 62, 3>::new();
    assert_eq!(xs.try_reserve(usize::MAX), Ok(()));
    assert_eq!(xs.allocated_chunks(), 3);
    assert_eq!(xs.capacity(), usize::MAX);
    assert_eq!(xs.push(()), 0);
    assert_eq!(
        xs.try_reserve(usize::MAX).unwrap_err().kind(),
        TryReserveErrorKind::CapacityOverflow
    );
    assert_eq!(xs.len(), 1);
}

#[test]
fn the_allocator_may_have_no_memory() {
    let mut xs = ExponentialArray::<[u8; 1 << 46], 1, 3>::new();
    assert_eq!(
        xs.try_reserve(1).unwrap_err().kind(),
        TryReserveErrorKind::AllocError {
            size: 1 << 47,
            align: 1
        }
    );
    assert_eq!(xs.allocated_chunks(), 0);
    assert_eq!(xs.capacity(), 0);
    assert!(xs.is_empty());
    let error = ExponentialArray::<[u8; 1 << 46], 1, 3>::try_with_capacity(2).err().unwrap();
    assert_eq!(
        error.to_string(),
        "memory allocation failed for layout with size 140737488355328 and align 1"
    );
}

#[test]
fn errors_say_what_went_wrong() {
    let mut xs = ExponentialArray::<u8, 0, 2>::from_array([1, 2]);
    let overflow = xs.try_reserve(usize::MAX).unwrap_err();
    assert_eq!(overflow.to_string(), "requested capacity overflows usize");
    assert_eq!(
        format!("{overflow:?}"),
        "TryReserveError { kind: CapacityOverflow }"
    );

    let exceeded = xs.try_reserve(1008).unwrap_err();
    assert_eq!(
        exceeded.to_string(),
        "requested capacity 1010 exceeds maximum capacity 2"
    );

    let rejected = xs.try_push(3).err().unwrap();
    assert_eq!(*rejected.value(), 3);
    assert_eq!(
        rejected.to_string(),
        "could not push value: requested capacity 3 exceeds maximum capacity 2"
    );
    assert_eq!(
        rejected.debug_string(),
        "TryPushError { value: \"<value>\", error: TryReserveError { kind: CapacityExceeded { requested: 3, max: 2 } } }"
    );
    assert_eq!(
        format!("{:?}", rejected.error()),
        "TryReserveError { kind: CapacityExceeded { requested: 3, max: 2 } }"
    );
    assert_eq!(xs.iter().copied().collect::<Vec<_>>(), vec![1, 2]);
}

#[test]
fn capacity_follows_the_chunks() {
    let mut xs = Small::<u64>::new();
    let mut seen = Vec::new();
    for value in 0..16 {
        xs.push(value);
        seen.push((xs.allocated_chunks(), xs.capacity()));
    }
    assert_eq!(
        seen,
        vec![
            (1, 2),
            (1, 2),
            (2, 4),
            (2, 4),
            (3, 8),
            (3, 8),
            (3, 8),
            (3, 8),
            (4, 16),
            (4, 16),
            (4, 16),
            (4, 16),
            (4, 16),
            (4, 16),
            (4, 16),
            (4, 16)
        ]
    );
    xs.clear();
    assert_eq!((xs.allocated_chunks(), xs.capacity()), (4, 16));
}

#[test]
fn reservations_allocate_the_least_number_of_chunks() {
    let mut xs = Small::<u64>::from_array([1, 2, 3]);
    xs.reserve(1);
    assert_eq!(xs.allocated_chunks(), 2);
    xs.reserve(2);
    assert_eq!(xs.allocated_chunks(), 3);
    xs.reserve(0);
    assert_eq!(xs.allocated_chunks(), 3);
    let ys = Small::<u64>::with_capacity(9);
    assert_eq!(ys.allocated_chunks(), 4);
    assert!(ys.is_empty());
}

#[test]
fn addresses_are_stable_under_each_growing_operation() {
    let mut xs = Small::<u64>::from_array([1, 2, 3]);
    let before = addresses(&xs);
    xs.push(4);
    xs.extend_from_slice(&[5, 6]);
    xs.extend_from_within(RangeBound::Excluded(0), RangeBound::Excluded(3));
    let mut ys = Small::<u64>::from_array([7]);
    xs.append(&mut ys);
    xs.resize(10, 8);
    xs.resize_with(11, || 9);
    xs.extend([10, 11].into_iter());
    assert_eq!(addresses(&xs)[..3], before[..]);
    assert_eq!(
        xs.into_iter().collect::<Vec<_>>(),
        vec![1, 2, 3, 4, 5, 6, 2, 3, 7, 8, 9, 10, 11]
    );
}

#[test]
fn reserved_room_is_used_before_more_is_allocated() {
    let mut xs = Small::<u64>::from_array([1]);
    xs.reserve(7);
    assert_eq!(xs.allocated_chunks(), 3);
    for value in 2..9 {
        xs.push(value);
        assert_eq!(xs.allocated_chunks(), 3);
    }
    xs.push(9);
    assert_eq!(xs.allocated_chunks(), 4);
}

#[test]
fn failed_reservations_move_nothing() {
    let mut xs = Small::<u64>::from_iter(0..5);
    let before = addresses(&xs);
    assert!(xs.try_reserve(12).is_err());
    assert!(xs.try_reserve(usize::MAX).is_err());
    assert_eq!(addresses(&xs), before);
    assert_eq!(xs.allocated_chunks(), 3);
    assert_eq!(xs.iter().copied().collect::<Vec<_>>(), vec![0, 1, 2, 3, 4]);
}

#[test]
fn pops_and_pushes_undo_each_other() {
    let mut xs = Small::<u64>::from_iter(0..4);
    let before = addresses(&xs);
    assert_eq!(xs.push(4), 4);
    assert_eq!(xs.pop(), Some(4));
    assert_eq!(addresses(&xs), before);
    assert_eq!(xs.pop(), Some(3));
    assert_eq!(xs.push(3), 3);
    assert_eq!(addresses(&xs), before);
    assert_eq!(xs.into_iter().collect::<Vec<_>>(), vec![0, 1, 2, 3]);
}

#[test]
fn two_truncations_are_one() {
    for (first, second) in [(9, 3), (3, 9), (20, 5), (5, 20), (0, 0)] {
        let mut xs = Small::<u64>::from_iter(0..11);
        xs.truncate(first);
        xs.truncate(second);
        let kept = first.min(second).min(11);
        assert!(xs == (0..kept as u64).collect::<Vec<_>>());
        assert_eq!(xs.allocated_chunks(), 4);
    }
}

#[test]
fn neighbours_of_a_chunk_are_contiguous() {
    let xs = Small::<u64>::from_iter(0..16);
    let places = addresses(&xs);
    for (chunk, range) in [(0, 0..2), (1, 2..4), (2, 4..8), (3, 8..16)] {
        assert_eq!(xs.chunks().nth(chunk).unwrap().len(), range.len());
        for index in range.start..range.end - 1 {
            assert_eq!(places[index + 1].get() - places[index].get(), 8);
        }
    }
}

#[test]
fn freed_slots_are_taken_again() {
    let mut xs = Small::<u64>::from_iter(0..9);
    let before = addresses(&xs);
    xs.truncate(3);
    assert_eq!(xs.push(30), 3);
    assert_eq!(xs.ptr(3), Some(before[3]));
    assert_eq!(xs.pop(), Some(30));
    assert_eq!(xs.push_ptr(31), before[3]);
    assert_eq!(xs.allocated_chunks(), 4);
}

#[test]
fn append_and_split_off_undo_each_other() {
    for at in 0..13usize {
        let mut xs = Small::<String>::from_iter((0..12).map(|value| value.to_string()));
        let before = addresses(&xs);
        let chunks = xs.allocated_chunks();
        if at <= xs.len() {
            let mut tail = xs.split_off(at);
            assert_eq!(xs.len(), at);
            assert_eq!(tail.len(), 12 - at);
            assert_eq!(xs.allocated_chunks(), chunks);
            assert_eq!(addresses(&xs)[..], before[..at]);
            let tail_chunks = tail.allocated_chunks();
            xs.append(&mut tail);
            assert!(tail.is_empty());
            assert_eq!(tail.allocated_chunks(), tail_chunks);
            assert_eq!(addresses(&xs), before);
        }
        assert_eq!(
            xs.into_iter().collect::<Vec<_>>(),
            (0..12).map(|value| value.to_string()).collect::<Vec<_>>()
        );
    }
}

#[test]
fn resolved_ranges_hold_their_bounds() {
    let build = |start: RangeBound, end: RangeBound| {
        let mut xs = ExponentialArray::<i32, 1, 6>::from_array([0, 1, 2, 3]);
        xs.extend_from_within(start, end);
        xs.into_iter().skip(4).collect::<Vec<_>>()
    };
    assert_eq!(
        build(RangeBound::Unbounded, RangeBound::Unbounded),
        vec![0, 1, 2, 3]
    );
    assert_eq!(
        build(RangeBound::Included(1), RangeBound::Included(2)),
        vec![1, 2]
    );
    assert_eq!(
        build(RangeBound::Excluded(1), RangeBound::Excluded(4)),
        vec![2, 3]
    );
    assert_eq!(
        build(RangeBound::Included(4), RangeBound::Unbounded),
        Vec::<i32>::new()
    );
}

#[test]
fn ranges_outside_the_array_are_refused() {
    let xs = Small::<u8>::from_array([1, 2, 3]);
    let resolve = |start: RangeBound, end: RangeBound| xs.resolve_range_bounds(start, end);
    assert_eq!(
        resolve(RangeBound::Excluded(0), RangeBound::Included(2)),
        Ok((1, 3))
    );
    assert_eq!(
        resolve(RangeBound::Excluded(usize::MAX), RangeBound::Included(usize::MAX)),
        Err(RangeError::StartOverflow)
    );
    assert_eq!(
        resolve(RangeBound::Unbounded, RangeBound::Included(usize::MAX)),
        Err(RangeError::EndOverflow)
    );
    assert_eq!(
        resolve(RangeBound::Included(2), RangeBound::Excluded(1)),
        Err(RangeError::Reversed { start: 2, end: 1 })
    );
    assert_eq!(
        resolve(RangeBound::Included(1), RangeBound::Excluded(4)),
        Err(RangeError::OutOfBounds { end: 4, len: 3 })
    );
}

#[test]
fn a_resize_moves_the_value_last() {
    let mut xs = Small::<Vec<u8>>::new();
    let mut value = Vec::with_capacity(100);
    value.push(1u8);
    xs.resize(3, value);
    assert_eq!(xs.last().unwrap().capacity(), 100);
    assert_eq!(xs.into_iter().collect::<Vec<_>>(), vec![vec![1], vec![1], vec![1]]);
}

#[test]
fn lengths_order_what_is_equal_so_far() {
    let xs = Small::<i32>::from_array([1, 2, 3, 4, 5]);
    let ys = ExponentialArray::<i32, 0, 6>::from_array([1, 2, 3, 4, 5, 6]);
    let zs = Small::<i32>::from_array([1, 2, 4]);
    assert_eq!(xs.partial_cmp(&ys), Some(Ordering::Less));
    assert_eq!(ys.partial_cmp(&xs), Some(Ordering::Greater));
    assert_eq!(xs.partial_cmp(&xs.clone()), Some(Ordering::Equal));
    assert_eq!(xs.cmp(&zs), Ordering::Less);
    assert_eq!(zs.cmp(&xs), Ordering::Greater);
    assert_eq!(xs.cmp(&xs), Ordering::Equal);
    assert!(xs != ys);
    assert!(xs != [1, 2, 3, 4]);
    assert!(xs == [1, 2, 3, 4, 5]);
    assert!(xs == &[1, 2, 3, 4, 5]);
    assert!(xs == vec![1, 2, 3, 4, 5]);
    assert!(xs == &vec![1, 2, 3, 4, 5]);
    assert!(xs < vec![2]);
    assert!(xs > [0, 9, 9, 9, 9, 9]);
    assert!(Small::<i32>::new() == Vec::<i32>::new());
}

#[test]
fn the_order_is_total() {
    let arrays = [vec![], vec![0], vec![0, 1, 2], vec![0, 1, 3], vec![0, 2], vec![1]]
        .map(Small::<i32>::from_vec);
    for (i, left) in arrays.iter().enumerate() {
        for (j, right) in arrays.iter().enumerate() {
            assert_eq!(left.cmp(right), i.cmp(&j));
            assert_eq!(left.cmp(right), right.cmp(left).reverse());
            assert_eq!(left.partial_cmp(right), Some(left.cmp(right)));
            assert_eq!(left == right, left.cmp(right) == Ordering::Equal);
        }
    }
}

#[test]
fn elements_may_have_no_order() {
    let xs = Small::<f64>::from_array([1.0, f64::NAN]);
    assert_eq!(xs.partial_cmp(&xs), None);
    assert!(xs != xs);
    assert_eq!(xs.partial_cmp(&[2.0]), Some(Ordering::Less));
    assert_eq!(xs.partial_cmp(&[1.0]), Some(Ordering::Greater));
}

#[test]
fn equal_sequences_have_equal_hashes() {
    let xs = Small::<u32>::from_array([1, 2, 3]);
    let ys = ExponentialArray::<u32, 3, 2>::from_array([1, 2, 3]);
    assert_eq!(digest(&xs), digest(&ys));
    assert_eq!(digest(&xs), digest(&vec![1u32, 2, 3]));
    assert_ne!(digest(&xs), digest(&Small::<u32>::from_array([3, 2, 1])));
}

#[test]
fn the_length_and_the_elements_are_fed_in_order() {
    let xs = Small::<u8>::from_array([7, 8, 9]);
    let mut fed: Vec<u64> = Vec::new();
    xs.feed_in_order(
        |len: &usize, state: &mut Vec<u64>| state.push(*len as u64),
        |value: &u8, state: &mut Vec<u64>| state.push(u64::from(*value)),
        &mut fed,
    );
    assert_eq!(fed, vec![3, 7, 8, 9]);
}

#[test]
fn elements_are_listed_as_their_type_prints_them() {
    let xs = Small::<Option<&str>>::from_array([Some("a"), None]);
    assert_eq!(xs.debug_string(), "[Some(\"a\"), None]");
    assert_eq!(Small::<u8>::new().debug_string(), "[]");
    assert_eq!(
        xs.list_string(|value| String::from(if value.is_some() { "yes" } else { "no" })),
        "[yes, no]"
    );
}

#[test]
fn clones_take_only_the_chunks_they_need() {
    let mut xs = Small::<String>::from_iter((0..9).map(|value| value.to_string()));
    xs.truncate(3);
    let copy = xs.clone();
    assert!(copy == xs);
    assert_eq!(copy.allocated_chunks(), 2);
    assert_ne!(copy.ptr(0), xs.ptr(0));

    let mut target = Small::<String>::from_array([String::from("old")]);
    let before = target.ptr(0);
    target.clone_from(&xs);
    assert!(target == xs);
    assert_eq!(target.ptr(0), before);
}

#[test]
fn iterators_report_what_is_left() {
    let mut xs = Small::<u8>::from_iter(0..5);
    assert_eq!(xs.iter().size_hint(), (5, Some(5)));
    assert_eq!(xs.chunks().size_hint(), (3, Some(3)));
    assert_eq!(xs.chunks_mut().size_hint(), (3, Some(3)));
    assert_eq!(xs.iter_mut().size_hint(), (5, Some(5)));
    let mut shared = xs.iter();
    let copy = shared;
    assert_eq!(shared.nth(1), Some(&1));
    assert_eq!((shared.len(), copy.len()), (3, 5));
    let mut owned = xs.into_iter();
    assert_eq!(owned.size_hint(), (5, Some(5)));
    assert_eq!(owned.next(), Some(0));
    assert_eq!(owned.next_back(), Some(4));
    assert_eq!(owned.len(), 3);
    assert_eq!(owned.by_ref().count(), 3);
    assert_eq!(owned.next(), None);
    assert_eq!(owned.next_back(), None);
}

#[test]
fn a_hint_reserves_room_at_once() {
    let mut xs = Small::<u8>::new();
    xs.extend_expecting([1, 2].into_iter(), 9);
    assert_eq!(xs.allocated_chunks(), 4);
    assert_eq!(xs.into_iter().collect::<Vec<_>>(), vec![1, 2]);

    let mut ys = Small::<u8>::new();
    ys.extend_expecting([1, 2].into_iter(), 16);
    assert_eq!(ys.allocated_chunks(), 4);
    assert_eq!(ys.into_iter().collect::<Vec<_>>(), vec![1, 2]);

    let mut copied = Small::<u8>::new();
    copied.extend_copied_expecting([1, 2, 3].iter(), 2);
    assert_eq!(copied.allocated_chunks(), 2);
    copied.extend_copied_expecting([4].iter(), 9);
    assert_eq!(copied.allocated_chunks(), 4);
    assert_eq!(copied.into_iter().collect::<Vec<_>>(), vec![1, 2, 3, 4]);

    let mut zs = Small::<u8>::new();
    zs.extend([1, 2, 3].iter().copied().filter(|value| *value != 2));
    zs.extend_copied([4, 5, 6].iter().filter(|value| **value != 5));
    assert_eq!(zs.into_iter().collect::<Vec<_>>(), vec![1, 3, 4, 6]);
}

#[test]
fn default_arrays_are_empty() {
    let xs: Xar<u8> = Default::default();
    assert!(xs.is_empty());
    assert_eq!(xs.allocated_chunks(), 0);
}

#[test]
fn arrays_go_where_their_elements_may_go() {
    fn sent<T: Send + Sync>(value: T) -> T {
        value
    }
    assert!(sent(Xar::<u8>::new()).is_empty());
}

#[test]
fn truncation_drops_across_chunks() {
    let mut xs = Small::<std::rc::Rc<u8>>::new();
    let shared = std::rc::Rc::new(1u8);
    for _ in 0..13 {
        xs.push(shared.clone());
    }
    assert_eq!(std::rc::Rc::strong_count(&shared), 14);
    xs.truncate(20);
    assert_eq!(std::rc::Rc::strong_count(&shared), 14);
    xs.truncate(1);
    assert_eq!(std::rc::Rc::strong_count(&shared), 2);
    xs.clear();
    assert_eq!(std::rc::Rc::strong_count(&shared), 1);
}

struct Noted {
    number: u8,
    log: std::rc::Rc<std::cell::RefCell<Vec<u8>>>,
}

impl Drop for Noted {
    fn drop(&mut self) {
        self.log.borrow_mut().push(self.number);
    }
}

#[test]
fn elements_are_dropped_in_index_order() {
    let log = std::rc::Rc::new(std::cell::RefCell::new(Vec::new()));
    let mut xs = Small::<Noted>::new();
    for number in 0..13 {
        xs.push(Noted { number, log: log.clone() });
    }
    let first = xs.ptr(0);
    xs.truncate(3);
    assert_eq!(log.take(), (3..13).collect::<Vec<_>>());
    assert_eq!(xs.len(), 3);
    assert_eq!(xs.allocated_chunks(), 4);
    assert_eq!(xs.capacity(), 16);
    xs.push(Noted { number: 20, log: log.clone() });
    xs.push(Noted { number: 21, log: log.clone() });
    xs.clear();
    assert_eq!(log.take(), vec![0, 1, 2, 20, 21]);
    assert_eq!(xs.allocated_chunks(), 4);
    xs.push(Noted { number: 30, log: log.clone() });
    assert_eq!(xs.ptr(0), first);
    xs.push(Noted { number: 31, log: log.clone() });
    xs.push(Noted { number: 32, log: log.clone() });
    drop(xs);
    assert_eq!(log.take(), vec![30, 31, 32]);
}

struct Announcing {
    items: std::vec::IntoIter<u8>,
    lower: usize,
}

impl Iterator for Announcing {
    type Item = u8;

    fn next(&mut self) -> Option<u8> {
        self.items.next()
    }

    fn size_hint(&self) -> (usize, Option<usize>) {
        (self.lower, None)
    }
}

#[test]
fn what_an_iterator_announces_is_reserved() {
    let mut xs = Small::<u8>::new();
    xs.extend(Announcing { items: vec![1, 2].into_iter(), lower: 9 });
    assert_eq!(xs.allocated_chunks(), 4);
    assert_eq!(xs.into_iter().collect::<Vec<_>>(), vec![1, 2]);
    let ys = Small::<u8>::from_iter(Announcing { items: vec![1, 2].into_iter(), lower: 5 });
    assert_eq!(ys.allocated_chunks(), 3);
    let zs = Small::<u8>::from_iter(Announcing { items: vec![1, 2, 3].into_iter(), lower: 0 });
    assert_eq!(zs.allocated_chunks(), 2);
}

#[test]
fn a_refused_push_does_not_call_the_closure() {
    let mut xs = Small::<u8>::from_iter(0..16);
    let mut called = false;
    let result = xs.try_push_with(|| {
        called = true;
        1
    });
    assert!(result.is_err());
    assert!(!called);
    assert_eq!(xs.len(), 16);
}

#[test]
fn an_iterator_that_announces_too_much_is_given_back() {
    let mut xs = Small::<u8>::from_iter(0..3);
    let refused = xs.try_extend(Announcing { items: vec![7, 8].into_iter(), lower: 14 });
    assert_eq!(refused.err().unwrap().collect::<Vec<_>>(), vec![7, 8]);
    assert_eq!(xs.iter().copied().collect::<Vec<_>>(), vec![0, 1, 2]);
    assert_eq!(xs.allocated_chunks(), 2);

    assert!(xs.try_extend(Announcing { items: vec![7, 8].into_iter(), lower: 13 }).is_ok());
    assert_eq!(xs.iter().copied().collect::<Vec<_>>(), vec![0, 1, 2, 7, 8]);
    assert_eq!(xs.allocated_chunks(), 4);

    assert!(xs.try_extend_copied([9, 10].iter()).is_ok());
    assert_eq!(xs.iter().copied().collect::<Vec<_>>(), vec![0, 1, 2, 7, 8, 9, 10]);
    assert!(xs.try_extend_copied([0; 10].iter().filter(|value| **value != 0)).is_ok());
    assert_eq!(xs.len(), 7);

    let whole = Small::<u8>::try_from_iter(Announcing { items: vec![1].into_iter(), lower: 16 });
    assert_eq!(whole.ok().unwrap().allocated_chunks(), 4);
    let refused = Small::<u8>::try_from_iter(Announcing { items: vec![1].into_iter(), lower: 17 });
    assert_eq!(refused.err().unwrap().collect::<Vec<_>>(), vec![1]);
}

#[test]
fn clone_from_keeps_the_chunks_through_the_trait() {
    fn overwrite<C: Clone>(target: &mut C, source: &C) {
        target.clone_from(source);
    }
    let mut target = Small::<u8>::from_iter(0..9);
    let first = target.ptr(0);
    let source = Small::<u8>::from_iter([4, 5, 6].into_iter());
    overwrite(&mut target, &source);
    assert!(target == source);
    assert_eq!(target.ptr(0), first);
    assert_eq!(target.allocated_chunks(), 4);
}

#[test]
fn the_default_chunks_fit_the_addresses() {
    let expected = match usize::BITS {
        16 => 12,
        32 => 28,
        64 => 32,
        _ => 16,
    };
    assert_eq!(DEFAULT_CHUNKS, expected);
}
