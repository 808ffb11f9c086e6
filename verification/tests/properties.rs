//! Long runs of generated operations, compared with the collections of the standard
//! library.

use std::cell::Cell;
use std::collections::VecDeque;
use std::rc::Rc;

use xar::{ExponentialArray, TryReserveErrorKind};

type PropertyArray<T> = ExponentialArray<T, 2, 8>;
type TinyArray<T> = ExponentialArray<T, 0, 3>;

/// A small generator of numbers that are the same in each run.
struct Numbers(u64);

impl Numbers {
    fn next(&mut self) -> u64 {
        self.0 ^= self.0 << 13;
        self.0 ^= self.0 >> 7;
        self.0 ^= self.0 << 17;
        self.0
    }

    fn below(&mut self, bound: usize) -> usize {
        (self.next() % (bound as u64)) as usize
    }

    fn value(&mut self) -> i32 {
        self.next() as i32
    }

    fn values(&mut self, max_size: usize) -> Vec<i32> {
        let size = self.below(max_size + 1);
        (0..size).map(|_| self.value()).collect()
    }

    fn flags(&mut self, max_size: usize) -> Vec<bool> {
        let size = self.below(max_size + 1);
        (0..size).map(|_| self.next() % 2 == 0).collect()
    }
}

fn expected_chunk_capacity(base_shift: usize, chunk: usize) -> usize {
    let shift = base_shift + chunk.saturating_sub(1);
    assert!(shift < usize::BITS as usize);
    1usize << shift
}

fn expected_allocated_chunks(
    base_shift: usize,
    chunk_count_max: usize,
    requested_capacity: usize,
) -> usize {
    let mut allocated_chunks = 0usize;
    let mut capacity = 0usize;

    while allocated_chunks < chunk_count_max && capacity < requested_capacity {
        capacity += expected_chunk_capacity(base_shift, allocated_chunks);
        allocated_chunks += 1;
    }

    allocated_chunks
}

fn expected_i32_chunks(base_shift: usize, values: &[i32]) -> Vec<Vec<i32>> {
    let mut chunks = Vec::new();
    let mut start = 0usize;
    let mut chunk = 0usize;

    while start < values.len() {
        let capacity = expected_chunk_capacity(base_shift, chunk);
        let end = values.len().min(start + capacity);
        chunks.push(values[start..end].to_vec());
        start = end;
        chunk += 1;
    }

    chunks
}

fn assert_i32_array_matches_vec<const BASE_SHIFT: usize, const CHUNKS: usize>(
    array: &ExponentialArray<i32, BASE_SHIFT, CHUNKS>,
    expected: &[i32],
) {
    assert_eq!(array.len(), expected.len());
    assert_eq!(array.is_empty(), expected.is_empty());
    assert!(array.capacity() >= array.len());
    assert!(array.allocated_chunks() <= CHUNKS);
    assert_eq!(array.iter().copied().collect::<Vec<_>>(), expected);

    for (index, value) in expected.iter().enumerate() {
        assert_eq!(array.get(index), Some(value));
        assert_eq!(&array[index], value);
        assert!(array.ptr(index).is_some());
    }

    assert_eq!(array.get(expected.len()), None);
    assert_eq!(array.ptr(expected.len()), None);
}

#[test]
fn generated_operations_match_vec_model() {
    for seed in 1..17u64 {
        let mut numbers = Numbers(seed * 7919);
        let mut array = PropertyArray::<i32>::new();
        let mut model: Vec<i32> = Vec::new();
        for _ in 0..120 {
            let full = model.len() == PropertyArray::<i32>::max_capacity();
            let value = numbers.value();
            match numbers.below(10) {
                0 if !full => {
                    assert_eq!(array.push(value), model.len());
                    model.push(value);
                }
                1 if !full => {
                    assert_eq!(array.try_push(value).ok(), Some(model.len()));
                    model.push(value);
                }
                2 if !full => {
                    let calls = Cell::new(0);
                    let index = array.push_with(|| {
                        calls.set(calls.get() + 1);
                        value
                    });
                    assert_eq!(index, model.len());
                    assert_eq!(calls.get(), 1);
                    model.push(value);
                }
                3 if !full => {
                    let replacement = numbers.value();
                    let pushed = array.push_mut(value);
                    assert_eq!(*pushed, value);
                    *pushed = replacement;
                    model.push(replacement);
                }
                4 if !full => {
                    let pointer = array.push_ptr(value);
                    assert_eq!(array.ptr(model.len()), Some(pointer));
                    model.push(value);
                }
                5 => {
                    assert_eq!(array.pop(), model.pop());
                }
                6 => {
                    let new_len = numbers.below(model.len() + 17);
                    array.truncate(new_len);
                    model.truncate(new_len);
                }
                8 => {
                    array.clear();
                    model.clear();
                }
                7 => {
                    let additional = numbers.below(65);
                    if model.len() + additional <= PropertyArray::<i32>::max_capacity() {
                        array.reserve(additional);
                        assert!(array.capacity() >= model.len() + additional);
                    }
                }
                _ => {
                    if model.is_empty() {
                        assert_eq!(array.get_mut(0), None);
                    } else {
                        let index = numbers.below(model.len());
                        if numbers.next() % 2 == 0 {
                            *array.get_mut(index).unwrap() = value;
                        } else {
                            *array.index_mut(index) = value;
                        }
                        model[index] = value;
                    }
                }
            }
            assert_i32_array_matches_vec(&array, &model);
        }
        array.clear();
        assert_i32_array_matches_vec(&array, &[]);
    }
}

#[test]
fn pushed_values_have_vec_sequence_projection() {
    let mut numbers = Numbers(11);
    for _ in 0..16 {
        let values = numbers.values(300);
        let mut array = PropertyArray::new();

        for (index, value) in values.iter().copied().enumerate() {
            assert_eq!(array.push(value), index);
            assert_eq!(array.len(), index + 1);
        }

        assert_i32_array_matches_vec(&array, &values);
    }
}

#[test]
fn extend_appends_generated_sequences_in_order() {
    let mut numbers = Numbers(12);
    for _ in 0..16 {
        let prefix = numbers.values(150);
        let suffix = numbers.values(150);
        let mut expected = prefix.clone();
        expected.extend(suffix.iter().copied());

        let mut array = PropertyArray::from_iter(prefix.into_iter());
        array.extend(suffix.into_iter());

        assert_i32_array_matches_vec(&array, &expected);
    }
}

#[test]
fn chunks_partition_the_initialized_sequence() {
    let mut numbers = Numbers(13);
    for _ in 0..16 {
        let values = numbers.values(300);
        let array = PropertyArray::from_iter(values.iter().copied());
        let chunks = array.chunks().collect::<Vec<_>>();

        let flattened = chunks
            .iter()
            .flat_map(|chunk| chunk.iter().copied())
            .collect::<Vec<_>>();
        assert_eq!(flattened, values);

        let total_len = chunks.iter().map(|chunk| chunk.len()).sum::<usize>();
        assert_eq!(total_len, values.len());

        for (chunk_index, chunk) in chunks.iter().enumerate() {
            assert!(!chunk.is_empty());

            let capacity = expected_chunk_capacity(2, chunk_index);
            assert!(chunk.len() <= capacity);

            if chunk_index + 1 < chunks.len() {
                assert_eq!(chunk.len(), capacity);
            }
        }
    }
}

#[test]
fn chunks_mut_visit_each_element_once() {
    let mut numbers = Numbers(14);
    for _ in 0..16 {
        let values = numbers.values(300);
        let delta = numbers.value();
        let mut expected = values.clone();
        let mut array = PropertyArray::from_vec(values);

        for chunk in array.chunks_mut() {
            for value in chunk {
                *value = value.wrapping_add(delta);
            }
        }
        for value in &mut expected {
            *value = value.wrapping_add(delta);
        }

        assert_i32_array_matches_vec(&array, &expected);
    }
}

#[test]
fn chunks_double_ended_iterator_matches_documented_partition() {
    let mut numbers = Numbers(15);
    for _ in 0..32 {
        let values = numbers.values(300);
        let expected_chunks = expected_i32_chunks(2, &values);
        let operations = numbers.flags(expected_chunks.len() + 8);
        let array = PropertyArray::from_vec(values);
        let mut expected = VecDeque::from(expected_chunks);
        let mut chunks = array.chunks();

        for take_back in operations {
            assert_eq!(chunks.len(), expected.len());
            let actual = if take_back {
                chunks.next_back().map(<[i32]>::to_vec)
            } else {
                chunks.next().map(<[i32]>::to_vec)
            };
            let expected_chunk = if take_back {
                expected.pop_back()
            } else {
                expected.pop_front()
            };

            assert_eq!(actual, expected_chunk);
        }

        assert_eq!(
            chunks.map(<[i32]>::to_vec).collect::<Vec<_>>(),
            expected.into_iter().collect::<Vec<_>>()
        );
    }
}

#[test]
fn chunks_mut_double_ended_iterator_visits_each_chunk_once() {
    let mut numbers = Numbers(16);
    for _ in 0..32 {
        let values = numbers.values(300);
        let delta = numbers.value();
        let expected_chunks = expected_i32_chunks(2, &values);
        let operations = numbers.flags(expected_chunks.len() + 8);
        let mut expected = values.clone();
        let mut array = PropertyArray::from_vec(values);
        let mut expected_queue = VecDeque::from(expected_chunks);
        let mut visited = 0usize;

        {
            let mut chunks = array.chunks_mut();
            for take_back in operations {
                assert_eq!(chunks.len(), expected_queue.len());
                let actual = if take_back {
                    chunks.next_back()
                } else {
                    chunks.next()
                };
                let expected_chunk = if take_back {
                    expected_queue.pop_back()
                } else {
                    expected_queue.pop_front()
                };

                match (actual, expected_chunk) {
                    (Some(chunk), Some(expected_chunk)) => {
                        assert_eq!(chunk, expected_chunk.as_slice());
                        visited += expected_chunk.len();
                        for value in chunk {
                            *value = value.wrapping_add(delta);
                        }
                    }
                    (None, None) => {}
                    (actual, expected_chunk) => {
                        panic!("chunk iterator mismatch: {actual:?} != {expected_chunk:?}")
                    }
                }
            }

            for (chunk, expected_chunk) in chunks.zip(expected_queue) {
                assert_eq!(chunk, expected_chunk.as_slice());
                visited += expected_chunk.len();
                for value in chunk {
                    *value = value.wrapping_add(delta);
                }
            }
        }

        for value in &mut expected {
            *value = value.wrapping_add(delta);
        }

        assert_eq!(visited, expected.len());
        assert_i32_array_matches_vec(&array, &expected);
    }
}

#[test]
fn shared_double_ended_iterator_matches_vec_deque() {
    let mut numbers = Numbers(17);
    for _ in 0..32 {
        let values = numbers.values(300);
        let operations = numbers.flags(values.len() + 16);
        let array = PropertyArray::from_iter(values.iter().copied());
        let mut model = VecDeque::from(values);
        let mut iter = array.iter();

        for take_back in operations {
            assert_eq!(iter.len(), model.len());
            let actual = if take_back {
                iter.next_back().copied()
            } else {
                iter.next().copied()
            };
            let expected = if take_back {
                model.pop_back()
            } else {
                model.pop_front()
            };
            assert_eq!(actual, expected);
        }

        assert_eq!(
            iter.copied().collect::<Vec<_>>(),
            model.into_iter().collect::<Vec<_>>()
        );
    }
}

#[test]
fn shared_iterator_fold_matches_vec_deque_after_partial_consumption() {
    let mut numbers = Numbers(18);
    for _ in 0..32 {
        let values = numbers.values(300);
        let operations = numbers.flags(values.len() + 16);
        let array = PropertyArray::from_iter(values.iter().copied());

        let mut fold_model = VecDeque::from(values.clone());
        let mut fold_iter = array.iter();
        for &take_back in &operations {
            if take_back {
                assert_eq!(fold_iter.next_back().copied(), fold_model.pop_back());
            } else {
                assert_eq!(fold_iter.next().copied(), fold_model.pop_front());
            }
        }

        let folded = fold_iter.fold(Vec::new(), |mut seen, value| {
            seen.push(*value);
            seen
        });
        assert_eq!(folded, fold_model.iter().copied().collect::<Vec<_>>());

        let mut rfold_model = VecDeque::from(values);
        let mut rfold_iter = array.iter();
        for &take_back in &operations {
            if take_back {
                assert_eq!(rfold_iter.next_back().copied(), rfold_model.pop_back());
            } else {
                assert_eq!(rfold_iter.next().copied(), rfold_model.pop_front());
            }
        }

        let rfolded = rfold_iter.rfold(Vec::new(), |mut seen, value| {
            seen.push(*value);
            seen
        });
        assert_eq!(
            rfolded,
            rfold_model.iter().rev().copied().collect::<Vec<_>>()
        );
    }
}

#[test]
fn mutable_double_ended_iterator_matches_vec_deque() {
    let mut numbers = Numbers(19);
    for _ in 0..32 {
        let values = numbers.values(300);
        let operations = numbers.flags(values.len() + 16);
        let delta = numbers.value();
        let mut expected = values.clone();
        let mut indexes = VecDeque::from_iter(0..values.len());
        let mut array = PropertyArray::from_vec(values);

        {
            let mut iter = array.iter_mut();
            for take_back in operations {
                assert_eq!(iter.len(), indexes.len());
                let actual = if take_back {
                    iter.next_back()
                } else {
                    iter.next()
                };
                let expected_index = if take_back {
                    indexes.pop_back()
                } else {
                    indexes.pop_front()
                };

                match (actual, expected_index) {
                    (Some(value), Some(index)) => {
                        assert_eq!(*value, expected[index]);
                        *value = value.wrapping_add(delta);
                        expected[index] = expected[index].wrapping_add(delta);
                    }
                    (None, None) => {}
                    (actual, expected_index) => {
                        panic!("mutable iterator mismatch: {actual:?} != {expected_index:?}")
                    }
                }
            }

            for (value, index) in iter.zip(indexes) {
                assert_eq!(*value, expected[index]);
                *value = value.wrapping_add(delta);
                expected[index] = expected[index].wrapping_add(delta);
            }
        }

        assert_i32_array_matches_vec(&array, &expected);
    }
}

#[test]
fn owning_double_ended_iterator_drops_each_element_once() {
    struct DropCounter(Rc<Cell<usize>>);

    impl Drop for DropCounter {
        fn drop(&mut self) {
            self.0.set(self.0.get() + 1);
        }
    }

    let mut numbers = Numbers(20);
    for _ in 0..32 {
        let len = numbers.below(151);
        let operations = numbers.flags(len + 16);
        let drops = Rc::new(Cell::new(0));
        let array = PropertyArray::from_iter((0..len).map(|_| DropCounter(drops.clone())));
        let mut iter = array.into_iter();

        for take_back in operations {
            if take_back {
                drop(iter.next_back());
            } else {
                drop(iter.next());
            }
            assert!(drops.get() <= len);
        }

        drop(iter);
        assert_eq!(drops.get(), len);
    }
}

#[test]
fn unchecked_accessors_match_checked_access_for_valid_indices() {
    let mut numbers = Numbers(21);
    for _ in 0..32 {
        let mut values = numbers.values(299);
        values.push(numbers.value());
        let index = numbers.below(values.len());
        let replacement = numbers.value();
        let mut expected = values.clone();
        let mut array = PropertyArray::from_vec(values);

        assert_eq!(*array.get_unchecked(index), expected[index]);
        assert_eq!(*array.get_unchecked_mut(index), expected[index]);

        *array.get_unchecked_mut(index) = replacement;
        expected[index] = replacement;

        assert_i32_array_matches_vec(&array, &expected);
    }
}

#[test]
fn pointers_to_existing_elements_survive_growth_and_reserve() {
    let mut numbers = Numbers(22);
    for _ in 0..32 {
        let mut prefix = numbers.values(127);
        prefix.push(numbers.value());
        let suffix = numbers.values(128);
        let additional = numbers.below(257);
        let mut array = PropertyArray::new();

        for value in prefix.iter().copied() {
            array.push(value);
        }

        let pointers = prefix
            .iter()
            .copied()
            .enumerate()
            .map(|(index, value)| (index, array.ptr(index).unwrap(), value))
            .collect::<Vec<_>>();
        let capacity_before = array.capacity();

        array.reserve(additional);
        for value in suffix {
            array.push(value);
        }

        assert!(array.capacity() >= capacity_before);
        for (index, pointer, value) in pointers {
            assert_eq!(array.ptr(index).unwrap(), pointer);
            assert_eq!(format!("{:p}", &array[index]), format!("{:#x}", pointer.get()));
            assert_eq!(array[index], value);
        }
    }
}

#[test]
fn sequence_traits_follow_vec_semantics() {
    let mut numbers = Numbers(23);
    for round in 0..32 {
        let left = numbers.values(150);
        let right = if round % 4 == 0 {
            left.clone()
        } else {
            numbers.values(150)
        };
        let left_array = PropertyArray::from_iter(left.iter().copied());
        let right_array = PropertyArray::from_iter(right.iter().copied());
        let cloned = left_array.clone();

        assert_i32_array_matches_vec(&cloned, &left);
        assert_eq!(left_array == right_array, left == right);
        assert_eq!(left_array.cmp(&right_array), left.cmp(&right));
        assert_eq!(
            left_array.partial_cmp(&right_array),
            left.partial_cmp(&right)
        );
        assert_eq!(left_array.debug_string(), format!("{left:?}"));
    }
}

#[test]
fn try_reserve_reports_capacity_bounds() {
    let max = TinyArray::<u8>::max_capacity();
    for requested in 0..max + 5 {
        let mut array = TinyArray::<u8>::new();
        let result = array.try_reserve(requested);

        assert_eq!(array.len(), 0);
        if requested <= max {
            assert_eq!(result, Ok(()));
            assert!(array.capacity() >= requested);
            assert_eq!(
                array.allocated_chunks(),
                expected_allocated_chunks(0, 3, requested)
            );
        } else {
            assert_eq!(
                result.unwrap_err().kind(),
                TryReserveErrorKind::CapacityExceeded { requested, max }
            );
            assert_eq!(array.capacity(), 0);
            assert_eq!(array.allocated_chunks(), 0);
        }
    }
}

#[test]
fn try_reserve_overflow_preserves_existing_elements() {
    let max = TinyArray::<u8>::max_capacity();
    for len in 1..max + 1 {
        let mut array = TinyArray::new();

        for value in 0..len {
            array.push(value as u8);
        }
        let capacity_before = array.capacity();

        let additional = usize::MAX - len + 1;
        let result = array.try_reserve(additional);

        assert_eq!(
            result.unwrap_err().kind(),
            TryReserveErrorKind::CapacityOverflow
        );
        assert_eq!(array.len(), len);
        assert_eq!(array.capacity(), capacity_before);
        assert_eq!(
            array.iter().copied().collect::<Vec<_>>(),
            (0..len as u8).collect::<Vec<_>>()
        );
    }
}

#[test]
fn try_with_capacity_reports_capacity_bounds() {
    let max = TinyArray::<u8>::max_capacity();
    for requested in 0..max + 5 {
        let result = TinyArray::<u8>::try_with_capacity(requested);

        if requested <= max {
            let array = result.ok().unwrap();
            assert_eq!(array.len(), 0);
            assert!(array.capacity() >= requested);
            assert_eq!(
                array.allocated_chunks(),
                expected_allocated_chunks(0, 3, requested)
            );
        } else {
            assert_eq!(
                result.err().unwrap().kind(),
                TryReserveErrorKind::CapacityExceeded { requested, max }
            );
        }
    }
}

#[test]
fn try_push_with_calls_closure_only_after_reservation_succeeds() {
    let max = TinyArray::<i32>::max_capacity();
    for len in 0..max + 1 {
        let value = 77;
        let mut array = TinyArray::new();

        for index in 0..len {
            array.push(index as i32);
        }

        let calls = Cell::new(0);
        let result = array.try_push_with(|| {
            calls.set(calls.get() + 1);
            value
        });

        if len < max {
            assert_eq!(result, Ok(len));
            assert_eq!(calls.get(), 1);
            assert_eq!(array.get(len), Some(&value));
        } else {
            assert_eq!(
                result.unwrap_err().kind(),
                TryReserveErrorKind::CapacityExceeded {
                    requested: max + 1,
                    max,
                }
            );
            assert_eq!(calls.get(), 0);
            assert_eq!(array.len(), max);
        }
    }
}

#[test]
fn try_push_returns_original_value_when_capacity_is_full() {
    let max = TinyArray::<i32>::max_capacity();
    let mut numbers = Numbers(24);
    for _ in 0..16 {
        let values = (0..max).map(|_| numbers.value()).collect::<Vec<_>>();
        let rejected = numbers.value();
        let mut array = TinyArray::new();

        for (index, value) in values.iter().copied().enumerate() {
            assert_eq!(array.try_push(value).ok(), Some(index));
        }

        let capacity_before = array.capacity();
        let error = array.try_push(rejected).err().unwrap();
        assert_eq!(*error.value(), rejected);
        let (value, reserve_error) = error.into_parts();

        assert_eq!(value, rejected);
        assert_eq!(
            reserve_error.kind(),
            TryReserveErrorKind::CapacityExceeded {
                requested: max + 1,
                max,
            }
        );
        assert_eq!(array.len(), max);
        assert_eq!(array.capacity(), capacity_before);
        assert_eq!(array.iter().copied().collect::<Vec<_>>(), values);
    }
}
