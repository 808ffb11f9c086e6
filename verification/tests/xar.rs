use std::cell::Cell;
use std::collections::hash_map::DefaultHasher;
use std::collections::VecDeque;
use std::hash::{Hash, Hasher};
use std::rc::Rc;

use xar::{ElementAddress, ExponentialArray, RangeBound, TryReserveErrorKind, Xar};

type PropertyArray<T> = ExponentialArray<T, 2, 8>;

fn assert_i32_array_matches_vec<const BASE_SHIFT: usize, const CHUNKS: usize>(
    array: &ExponentialArray<i32, BASE_SHIFT, CHUNKS>,
    expected: &[i32],
) {
    assert_eq!(array.len(), expected.len());
    assert_eq!(array.is_empty(), expected.is_empty());
    assert!(array.capacity() >= array.len());
    assert!(array.allocated_chunks() <= CHUNKS);
    assert_eq!(array.iter().copied().collect::<Vec<_>>(), expected);

    for (index, value) in expected.iter().enumerate() {
        assert_eq!(array.get(index), Some(value));
        assert_eq!(&array[index], value);
        assert!(array.ptr(index).is_some());
    }

    assert_eq!(array.get(expected.len()), None);
    assert_eq!(array.ptr(expected.len()), None);
}

/// The element is where its address says.
fn assert_lives_at<T>(value: &T, address: ElementAddress) {
    assert_eq!(format!("{:p}", value), format!("{:#x}", address.get()));
}

#[test]
fn push_and_get_by_index() {
    let mut xs = Xar::new();

    for i in 0..1_000 {
        assert_eq!(xs.push(i), i);
    }

    assert_eq!(xs.len(), 1_000);
    assert!(!xs.is_empty());

    for i in 0..1_000 {
        assert_eq!(xs.get(i), Some(&i));
        assert_eq!(xs[i], i);
    }

    assert_eq!(xs.get(1_000), None);
}

#[test]
fn pointers_remain_stable_across_growth() {
    let mut xs = Xar::new();

    let first = xs.push_ptr(String::from("first"));
    let first_addr = first.get();

    for i in 0..20_000 {
        xs.push(i.to_string());
    }

    assert_eq!(first.get(), first_addr);
    assert_eq!(xs.ptr(0).unwrap().get(), first_addr);
    assert_lives_at(&xs[0], first);
    assert_eq!(xs[0], "first");
}

#[test]
fn reserve_does_not_move_existing_elements() {
    let mut xs = Xar::new();
    xs.push(10);
    let ptr_before = xs.ptr(0).unwrap();

    xs.reserve(10_000);

    let ptr_after = xs.ptr(0).unwrap();
    assert_eq!(ptr_before, ptr_after);
    assert_lives_at(&xs[0], ptr_after);
    assert_eq!(xs[0], 10);
}

#[test]
fn pop_and_truncate_drop_tail() {
    #[derive(Clone)]
    struct DropCounter(Rc<Cell<usize>>);

    impl Drop for DropCounter {
        fn drop(&mut self) {
            self.0.set(self.0.get() + 1);
        }
    }

    let drops = Rc::new(Cell::new(0));
    let mut xs = Xar::new();

    for _ in 0..10 {
        xs.push(DropCounter(drops.clone()));
    }

    assert_eq!(drops.get(), 0);
    drop(xs.pop());
    assert_eq!(drops.get(), 1);

    xs.truncate(4);
    assert_eq!(xs.len(), 4);
    assert_eq!(drops.get(), 6);

    drop(xs);
    assert_eq!(drops.get(), 10);
}

#[test]
fn push_resumes_at_tail_after_pop_truncate_and_clear() {
    let mut xs = ExponentialArray::<_, 2, 4>::from_iter(0..10);

    assert_eq!(xs.pop(), Some(9));
    assert_eq!(xs.pop(), Some(8));
    assert_eq!(xs.push(90), 8);
    assert_eq!(xs.push(91), 9);
    assert_eq!(
        xs.iter().copied().collect::<Vec<_>>(),
        vec![0, 1, 2, 3, 4, 5, 6, 7, 90, 91]
    );

    xs.truncate(5);
    assert_eq!(xs.push(50), 5);
    assert_eq!(xs.push(51), 6);
    assert_eq!(xs.push(52), 7);
    assert_eq!(xs.push(80), 8);
    assert_eq!(
        xs.chunks().map(|chunk| chunk.to_vec()).collect::<Vec<_>>(),
        vec![vec![0, 1, 2, 3], vec![4, 50, 51, 52], vec![80]]
    );

    xs.clear();
    assert_eq!(xs.push(7), 0);
    assert_eq!(xs.iter().copied().collect::<Vec<_>>(), vec![7]);
}

#[test]
fn append_constructors_append_and_observe_tail_element() {
    let mut xs = ExponentialArray::<_, 2, 4>::new();

    assert_eq!(xs.push(10), 0);

    let pushed_mut = xs.push_mut(20);
    assert_eq!(*pushed_mut, 20);
    *pushed_mut = 21;

    let pushed_ptr = xs.push_ptr(30);
    assert_lives_at(&xs[2], pushed_ptr);
    assert_eq!(xs[2], 30);
    *xs.index_mut(2) = 31;
    assert_eq!(xs.ptr(2), Some(pushed_ptr));

    assert_eq!(xs.push_with(|| 40), 3);
    assert_eq!(xs.try_push(50).ok(), Some(4));
    assert_eq!(xs.try_push_with(|| 60).unwrap(), 5);
    assert_eq!(
        xs.iter().copied().collect::<Vec<_>>(),
        vec![10, 21, 31, 40, 50, 60]
    );
}

#[test]
fn mutable_double_ended_iterator_matches_vec_deque_order() {
    let mut xs = ExponentialArray::<_, 2, 4>::from_iter(0..10);
    let mut model = VecDeque::from_iter(0..10);
    let operations = [false, true, false, true, true, false, false, true];

    let mut observed = Vec::new();
    let mut expected_observed = Vec::new();
    {
        let mut iter = xs.iter_mut();
        for take_back in operations {
            assert_eq!(iter.len(), model.len());
            let expected = if take_back {
                model.pop_back().unwrap()
            } else {
                model.pop_front().unwrap()
            };
            let value = if take_back {
                let value = iter.next_back().unwrap();
                assert_eq!(*value, expected);
                value
            } else {
                let value = iter.next().unwrap();
                assert_eq!(*value, expected);
                value
            };
            expected_observed.push(expected);
            observed.push(*value);
            *value += 100;
        }

        let remaining = iter
            .map(|value| {
                let old_value = *value;
                *value += 100;
                old_value
            })
            .collect::<Vec<_>>();
        expected_observed.extend(model);
        observed.extend(remaining);
    }

    assert_eq!(observed, expected_observed);
    assert_eq!(
        xs.iter().copied().collect::<Vec<_>>(),
        (100..110).collect::<Vec<_>>()
    );
}

#[test]
fn owning_double_ended_iterator_matches_vec_deque_order() {
    let xs = ExponentialArray::<_, 2, 4>::from_iter(0..10);
    let mut model = VecDeque::from_iter(0..10);
    let operations = [false, true, true, false, false, true];
    let mut iter = xs.into_iter();

    for take_back in operations {
        assert_eq!(iter.len(), model.len());
        let actual = if take_back {
            iter.next_back()
        } else {
            iter.next()
        };
        let expected = if take_back {
            model.pop_back()
        } else {
            model.pop_front()
        };
        assert_eq!(actual, expected);
    }

    assert_eq!(
        iter.collect::<Vec<_>>(),
        model.into_iter().collect::<Vec<_>>()
    );
}

#[test]
fn iterators_work_from_both_ends() {
    let xs = Xar::from_iter(0..10);
    let mut iter = xs.iter();

    assert_eq!(iter.next(), Some(&0));
    assert_eq!(iter.next_back(), Some(&9));
    assert_eq!(iter.len(), 8);
    assert_eq!(
        iter.copied().collect::<Vec<_>>(),
        (1..9).collect::<Vec<_>>()
    );
}

#[test]
fn mutable_iterators_work_from_both_ends() {
    let mut xs = Xar::from_iter(0..10);

    for value in xs.iter_mut() {
        *value *= 2;
    }

    assert_eq!(
        xs.into_iter().collect::<Vec<_>>(),
        (0..10).map(|v| v * 2).collect::<Vec<_>>()
    );
}

#[test]
fn chunks_report_contiguous_initialized_segments() {
    let xs = ExponentialArray::<_, 2, 4>::from_iter(0..10);
    let chunks = xs.chunks().map(|chunk| chunk.to_vec()).collect::<Vec<_>>();

    assert_eq!(chunks, vec![vec![0, 1, 2, 3], vec![4, 5, 6, 7], vec![8, 9]]);
}

#[test]
fn chunks_follow_power_range_layout() {
    let xs = ExponentialArray::<_, 2, 5>::from_iter(0..32);
    let chunks = xs.chunks().map(|chunk| chunk.to_vec()).collect::<Vec<_>>();

    assert_eq!(
        chunks,
        vec![
            (0..4).collect::<Vec<_>>(),
            (4..8).collect::<Vec<_>>(),
            (8..16).collect::<Vec<_>>(),
            (16..32).collect::<Vec<_>>(),
        ]
    );
}

#[test]
fn chunks_mut_can_modify_in_place() {
    let mut xs = ExponentialArray::<_, 2, 4>::from_iter(0..10);

    for chunk in xs.chunks_mut() {
        for value in chunk {
            *value += 1;
        }
    }

    assert_eq!(
        xs.into_iter().collect::<Vec<_>>(),
        (1..11).collect::<Vec<_>>()
    );
}

#[test]
fn clone_debug_eq_ord_and_hash_are_sequence_like() {
    let xs = Xar::from_iter(0..32);
    let ys = xs.clone();

    assert!(xs == ys);
    assert_eq!(
        xs.debug_string(),
        format!("{:?}", (0..32).collect::<Vec<_>>())
    );
    assert!(xs <= ys);

    let mut hx = DefaultHasher::new();
    let mut hy = DefaultHasher::new();
    xs.hash(&mut hx);
    ys.hash(&mut hy);
    assert_eq!(hx.finish(), hy.finish());
}

#[test]
fn supports_zero_sized_types() {
    let mut xs = Xar::new();

    for _ in 0..128 {
        xs.push(());
    }

    assert_eq!(xs.len(), 128);
    assert_eq!(xs.iter().count(), 128);
    assert_eq!(xs.pop(), Some(()));
    assert_eq!(xs.len(), 127);
}

#[test]
fn front_and_back_helpers_match_vec_observations() {
    let mut xs = PropertyArray::<i32>::new();

    assert_eq!(xs.first(), None);
    assert_eq!(xs.first_mut(), None);
    assert_eq!(xs.last(), None);
    assert_eq!(xs.last_mut(), None);
    assert_eq!(xs.last_ptr(), None);

    xs.extend([1, 2, 3, 4].into_iter());
    assert_eq!(xs.first(), Some(&1));
    assert_eq!(xs.last(), Some(&4));

    *xs.first_mut().unwrap() = 10;
    *xs.last_mut().unwrap() = 40;

    let last_pointer = xs.last_ptr().unwrap();
    assert_eq!(last_pointer, xs.ptr(xs.len() - 1).unwrap());
    assert_lives_at(xs.last().unwrap(), last_pointer);
    assert_eq!(*xs.last().unwrap(), 40);
    assert_i32_array_matches_vec(&xs, &[10, 2, 3, 40]);
}

#[test]
fn append_moves_source_sequence_without_moving_existing_destination() {
    let mut dst = PropertyArray::from_iter(0..8);
    let stable_prefix = (0..dst.len())
        .map(|index| (index, dst.ptr(index).unwrap(), dst[index]))
        .collect::<Vec<_>>();
    let mut src = PropertyArray::from_iter(100..108);
    let expected = (0..8).chain(100..108).collect::<Vec<_>>();

    dst.append(&mut src);

    assert!(src.is_empty());
    assert_i32_array_matches_vec(&dst, &expected);
    for (index, pointer, value) in stable_prefix {
        assert_eq!(dst.ptr(index).unwrap(), pointer);
        assert_lives_at(&dst[index], pointer);
        assert_eq!(dst[index], value);
    }
}

#[test]
fn resize_and_resize_with_match_vec_tail_behavior() {
    let mut xs = PropertyArray::from_array([1, 2, 3, 4]);
    let first_pointer = xs.ptr(0).unwrap();

    xs.resize(2, 9);
    assert_i32_array_matches_vec(&xs, &[1, 2]);
    assert_eq!(xs.ptr(0).unwrap(), first_pointer);

    xs.resize(5, 7);
    assert_i32_array_matches_vec(&xs, &[1, 2, 7, 7, 7]);
    assert_eq!(xs.ptr(0).unwrap(), first_pointer);

    let mut next_value = 10;
    xs.resize_with(8, || {
        let value = next_value;
        next_value += 1;
        value
    });
    assert_i32_array_matches_vec(&xs, &[1, 2, 7, 7, 7, 10, 11, 12]);
    assert_eq!(xs.ptr(0).unwrap(), first_pointer);

    xs.resize_with(3, || panic!("truncate must not call the generator"));
    assert_i32_array_matches_vec(&xs, &[1, 2, 7]);
    assert_eq!(xs.ptr(0).unwrap(), first_pointer);
}

#[test]
fn split_off_moves_tail_without_moving_retained_prefix() {
    let mut xs = PropertyArray::from_iter(0..10);
    let stable_prefix = (0..4)
        .map(|index| (index, xs.ptr(index).unwrap(), xs[index]))
        .collect::<Vec<_>>();

    let tail = xs.split_off(4);

    assert_i32_array_matches_vec(&xs, &[0, 1, 2, 3]);
    assert_i32_array_matches_vec(&tail, &[4, 5, 6, 7, 8, 9]);
    for (index, pointer, value) in stable_prefix {
        assert_eq!(xs.ptr(index).unwrap(), pointer);
        assert_lives_at(&xs[index], pointer);
        assert_eq!(xs[index], value);
    }

    let empty_tail = xs.split_off(xs.len());
    assert!(empty_tail.is_empty());
    assert_i32_array_matches_vec(&xs, &[0, 1, 2, 3]);

    let all = xs.split_off(0);
    assert!(xs.is_empty());
    assert_i32_array_matches_vec(&all, &[0, 1, 2, 3]);
}

#[test]
fn extend_from_within_matches_vec_and_preserves_existing_addresses() {
    let mut xs = PropertyArray::from_array([0, 1, 2, 3, 4]);
    let stable_prefix = (0..xs.len())
        .map(|index| (index, xs.ptr(index).unwrap(), xs[index]))
        .collect::<Vec<_>>();
    let mut model = vec![0, 1, 2, 3, 4];

    xs.extend_from_within(RangeBound::Included(1), RangeBound::Excluded(4));
    model.extend_from_within(1..4);
    assert_i32_array_matches_vec(&xs, &model);

    xs.extend_from_within(RangeBound::Unbounded, RangeBound::Included(2));
    model.extend_from_within(..=2);
    assert_i32_array_matches_vec(&xs, &model);

    for (index, pointer, value) in stable_prefix {
        assert_eq!(xs.ptr(index).unwrap(), pointer);
        assert_lives_at(&xs[index], pointer);
        assert_eq!(xs[index], value);
    }
}

#[test]
fn slice_array_and_vec_conversions_preserve_sequence() {
    let source = vec![String::from("a"), String::from("b")];
    let from_slice = PropertyArray::<String>::from_slice(source.as_slice());
    assert_eq!(from_slice.iter().cloned().collect::<Vec<_>>(), source);

    let mut mutable_slice_values = [String::from("c"), String::from("d")];
    let from_mut_slice = PropertyArray::<String>::from_slice(&mut mutable_slice_values[..]);
    assert_eq!(
        from_mut_slice.iter().cloned().collect::<Vec<_>>(),
        vec![String::from("c"), String::from("d")]
    );

    let from_array_ref =
        PropertyArray::<String>::from_slice(&[String::from("e"), String::from("f")]);
    assert_eq!(
        from_array_ref.iter().cloned().collect::<Vec<_>>(),
        vec![String::from("e"), String::from("f")]
    );

    let mut mutable_array_values = [String::from("g"), String::from("h")];
    let from_mut_array = PropertyArray::<String>::from_slice(&mut mutable_array_values);
    assert_eq!(
        from_mut_array.iter().cloned().collect::<Vec<_>>(),
        vec![String::from("g"), String::from("h")]
    );

    let from_vec = PropertyArray::<String>::from_vec(vec![String::from("i"), String::from("j")]);
    let back_to_vec: Vec<_> = from_vec.into();
    assert_eq!(back_to_vec, vec![String::from("i"), String::from("j")]);
}

#[test]
fn comparison_and_extend_traits_accept_common_sequence_inputs() {
    let mut xs = PropertyArray::<i32>::new();
    xs.extend_copied([1, 2, 3].iter());

    let same_array = [1, 2, 3];
    let same_slice: &[i32] = &same_array;
    let same_vec = vec![1, 2, 3];
    let larger_vec = vec![1, 2, 4];
    let same_other_config = ExponentialArray::<_, 1, 8>::from_array([1, 2, 3]);

    assert!(xs == same_array);
    assert!(xs == same_slice);
    assert!(xs == same_vec);
    assert!(xs == same_other_config);
    assert!(xs <= same_slice);
    assert!(xs < larger_vec);
}

#[test]
fn capacity_errors_return_original_value() {
    let mut xs = ExponentialArray::<u8, 0, 2>::new();
    assert_eq!(ExponentialArray::<u8, 0, 2>::max_capacity(), 2);

    assert_eq!(xs.push(1), 0);
    assert_eq!(xs.push(2), 1);

    let error = xs.try_push(3).err().unwrap();
    let (value, reserve_error) = error.into_parts();

    assert_eq!(value, 3);
    assert_eq!(
        reserve_error.kind(),
        TryReserveErrorKind::CapacityExceeded {
            requested: 3,
            max: 2,
        }
    );
}

#[test]
fn from_array_and_extend() {
    let mut xs = ExponentialArray::<_, 1, 8>::from_array([1, 2, 3]);
    xs.extend([4, 5, 6].into_iter());
    xs.extend_copied([7, 8, 9].iter());

    assert_eq!(
        xs.into_iter().collect::<Vec<_>>(),
        vec![1, 2, 3, 4, 5, 6, 7, 8, 9]
    );
}
