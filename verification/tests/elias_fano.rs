use std::sync::atomic::Ordering;
use sux::bits::bitmap::Bitmap;
use sux::dict::elias_fano::{EliasFanoAtomicBuilder, EliasFanoBuilder, EliasFanoError};

#[test]
fn five_values() {
    let values = [3usize, 7, 7, 42, 1000];
    let mut builder = EliasFanoBuilder::new(1001, 5);
    for &v in values.iter() {
        assert!(builder.push(v).is_ok());
    }
    let ef = builder.build();
    assert_eq!(ef.len(), 5);
    assert_eq!(ef.count(), 5);
    for (i, &v) in values.iter().enumerate() {
        assert_eq!(ef.get(i), v);
        assert_eq!(ef.select_unchecked(i), v);
    }
}

#[test]
fn a_lower_value_is_refused() {
    let mut builder = EliasFanoBuilder::new(1001, 5);
    assert!(builder.push(3).is_ok());
    assert!(builder.push(7).is_ok());
    let refused = builder.push(6);
    assert_eq!(refused, Err(EliasFanoError::NotMonotone));
    assert_eq!(
        EliasFanoError::NotMonotone.message(),
        "The values given to elias-fano are not monotone"
    );
    // The builder is as it was: the sequence can still be completed.
    assert!(builder.push(7).is_ok());
    assert!(builder.push(42).is_ok());
    assert!(builder.push(1001).is_ok());
    let ef = builder.build();
    assert_eq!(ef.get(2), 7);
    assert_eq!(ef.get(4), 1001);
}

#[test]
fn many_sequences() {
    for &(n, step) in [(1usize, 0usize), (10, 1), (100, 7), (1000, 1000), (64, 0), (300, 3)].iter() {
        let values: Vec<usize> = (0..n).map(|i| i * step + (i % 3 == 0) as usize).collect();
        let mut sorted = values.clone();
        sorted.sort();
        let u = *sorted.last().unwrap();
        let mut builder = EliasFanoBuilder::new(u, n);
        for &v in sorted.iter() {
            builder.push(v).unwrap();
        }
        let ef = builder.build();
        assert!(ef.validate());
        for i in 0..n {
            assert_eq!(ef.get(i), sorted[i]);
        }
    }
}

#[test]
fn values_above_the_count() {
    // Fewer values than the upper bound: the low bits take part.
    let values = [0usize, 1 << 20, (1 << 20) + 1, 1 << 30, (1 << 40) - 1];
    let mut builder = EliasFanoBuilder::new(1 << 40, 5);
    for &v in values.iter() {
        builder.push(v).unwrap();
    }
    let (u, n, l, low_bits, high_bits) = builder.build().into_raw_parts();
    assert_eq!((u, n), (1 << 40, 5));
    // The whole part of the logarithm of 2^40 / 5.
    assert_eq!(l, 37);
    assert_eq!(low_bits.bit_width(), 37);
    assert_eq!(low_bits.len(), 5);
    assert_eq!(high_bits.count(), 5);
    assert_eq!(high_bits.len(), 5 + (1 << 3) + 1);
    assert_eq!(high_bits.select(0), Some(0));
    assert_eq!(high_bits.select(4), Some(7 + 4));
    assert_eq!(high_bits.select(5), None);
}

#[test]
fn upper_bounds_on_memory() {
    // Twice the number of values and, for each, the logarithm of u / n rounded up.
    assert_eq!(EliasFanoBuilder::mem_upperbound(1001, 5), 2 * 5 + 5 * 8);
    assert_eq!(EliasFanoBuilder::mem_upperbound(1024, 4), 2 * 4 + 4 * 8);
    assert_eq!(EliasFanoBuilder::mem_upperbound(1025, 4), 2 * 4 + 4 * 9);
    assert_eq!(EliasFanoBuilder::mem_upperbound(4, 4), 8);
    assert_eq!(EliasFanoBuilder::mem_upperbound(3, 4), 8);
    assert_eq!(EliasFanoBuilder::mem_upperbound(0, 4), 8);
    assert_eq!(EliasFanoBuilder::mem_upperbound(100, 0), 0);
    assert_eq!(EliasFanoAtomicBuilder::mem_upperbound(1001, 5), 50);
    assert_eq!(EliasFanoAtomicBuilder::mem_upperbound(5, 5), 10);
}

#[test]
fn values_set_in_any_order() {
    let values: Vec<usize> = (0..500).map(|i| i * i / 7).collect();
    let builder = EliasFanoAtomicBuilder::new(*values.last().unwrap(), values.len());
    for i in (0..values.len()).rev() {
        builder.set_atomic(i, values[i], Ordering::Relaxed);
    }
    let ef = builder.build();
    assert!(ef.validate());
    for i in 0..values.len() {
        assert_eq!(ef.get(i), values[i]);
    }
}

#[test]
fn a_sequence_that_was_not_completed_is_not_valid() {
    let builder = EliasFanoAtomicBuilder::new(100, 3);
    builder.set_atomic(0, 5, Ordering::SeqCst);
    builder.set_atomic(2, 50, Ordering::SeqCst);
    assert!(!builder.build().validate());
}

#[test]
fn bitmap_rank_and_select() {
    let mut bitmap = Bitmap::new(200);
    let ones = [0usize, 1, 63, 64, 65, 127, 128, 199];
    for &p in ones.iter() {
        bitmap.set(p, 1);
    }
    bitmap.set(1, 0);
    assert_eq!(bitmap.len(), 200);
    assert_eq!(bitmap.get(0), 1);
    assert_eq!(bitmap.get(1), 0);
    assert_eq!(bitmap.get(2), 0);
    assert_eq!(bitmap.count_ones(), 7);
    let counting = bitmap.with_count(7);
    assert_eq!(counting.count(), 7);
    let expected = [0usize, 63, 64, 65, 127, 128, 199];
    for (rank, &p) in expected.iter().enumerate() {
        assert_eq!(counting.select(rank), Some(p));
        assert_eq!(counting.select_unchecked(rank), p);
        assert_eq!(counting.get(p), 1);
    }
    assert_eq!(counting.select(7), None);
}

#[test]
fn the_parts_of_a_sequence() {
    let mut builder = EliasFanoBuilder::new(100, 4);
    for v in [5usize, 10, 50, 100] {
        builder.push(v).unwrap();
    }
    let ef = builder.build();
    // The two parts go through a function and come back as they are.
    let same = ef.monad(|high, low| (high, low));
    assert_eq!(same.len(), 4);
    assert_eq!(same.get(3), 100);
    let (u, n, l, low, high) = same.into_raw_parts();
    let again = sux::dict::elias_fano::EliasFano::from_raw_parts(u, n, l, low, high);
    assert!(again.validate());
    assert_eq!(again.get(2), 50);
    let copy = again.clone();
    assert_eq!(copy.get(1), 10);
}
