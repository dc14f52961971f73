use sux::bits::bit_field_vec::BitFieldVec;

#[test]
fn set_then_get_every_width() {
    for bit_width in 0..=64usize {
        let mask = if bit_width == 0 { 0 } else { u64::MAX >> (64 - bit_width) };
        let mut v = BitFieldVec::new(bit_width, 200);
        for i in 0..200usize {
            v.set(i, (i as u64).wrapping_mul(0x9E37_79B9_7F4A_7C15) & mask);
        }
        for i in 0..200usize {
            assert_eq!(v.get(i), (i as u64).wrapping_mul(0x9E37_79B9_7F4A_7C15) & mask);
        }
    }
}

#[test]
fn packed_vector_scenario() {
    let mut v = BitFieldVec::new(5, 1000);
    for i in 0..1000usize {
        v.set(i, (i % 32) as u64);
    }
    let forward = v.iter().collect();
    let backward = v.iter().collect_rev();
    for i in 0..1000usize {
        assert_eq!(forward[i], (i % 32) as u64);
        assert_eq!(backward[999 - i], (i % 32) as u64);
    }
    v.apply_inplace(|x| (x + 1) % 32);
    for i in 0..1000usize {
        assert_eq!(v.get(i), ((i + 1) % 32) as u64);
    }
}

#[test]
fn iterators_every_width() {
    for bit_width in 0..=64usize {
        let mask = if bit_width == 0 { 0 } else { u64::MAX >> (64 - bit_width) };
        let mut v = BitFieldVec::new(bit_width, 131);
        for i in 0..131usize {
            v.set(i, (i as u64 + 1).wrapping_mul(0xD6E8_FEB8_6659_FD93) & mask);
        }
        let expected: Vec<u64> = (0..131usize).map(|i| v.get(i)).collect();
        assert_eq!(v.iter().collect(), expected);
        let mut reversed = expected.clone();
        reversed.reverse();
        assert_eq!(v.iter().collect_rev(), reversed);
        assert_eq!(v.iter_range(3, 100).collect(), expected[3..100].to_vec());
        let mut it = v.iter_from(120);
        assert_eq!(it.next(), Some(expected[120]));
        assert_eq!(it.next_back(), Some(expected[130]));
        assert_eq!(it.len(), 9);
        v.apply_inplace(|x| !x & mask);
        for i in 0..131usize {
            assert_eq!(v.get(i), !expected[i] & mask);
        }
    }
}

#[test]
fn widths_at_the_ends() {
    // No bits: every value is zero, and only zero can be set.
    let mut none = BitFieldVec::new(0, 10);
    assert_eq!(none.mask(), 0);
    none.set(3, 0);
    none.push(0);
    assert_eq!(none.len(), 11);
    for i in 0..11usize {
        assert_eq!(none.get(i), 0);
    }
    none.apply_inplace(|x| x);
    assert_eq!(none.iter().collect(), vec![0u64; 11]);
    assert_eq!(none.iter().collect_rev(), vec![0u64; 11]);
    // A whole word: no value lies across two words.
    let mut whole = BitFieldVec::new(64, 5);
    assert_eq!(whole.mask(), u64::MAX);
    for i in 0..5usize {
        whole.set(i, u64::MAX - i as u64);
    }
    assert_eq!(whole.iter().collect_rev(), vec![u64::MAX - 4, u64::MAX - 3, u64::MAX - 2, u64::MAX - 1, u64::MAX]);
    whole.apply_inplace(|x| x ^ 1);
    assert_eq!(whole.get(0), u64::MAX - 1);
}

#[test]
fn growing_and_shrinking() {
    let mut v = BitFieldVec::with_capacity(7, 10);
    assert_eq!(v.len(), 0);
    assert!(v.is_empty());
    assert!(v.capacity() >= 1);
    for i in 0..100u64 {
        v.push(i);
    }
    assert_eq!(v.len(), 100);
    assert_eq!(v.pop(), Some(99));
    v.extend(&[5, 6, 7]);
    assert_eq!(v.len(), 102);
    assert_eq!(v.get(101), 7);
    v.resize(200, 127);
    assert_eq!(v.get(150), 127);
    assert_eq!(v.get(98), 98);
    v.resize(50, 0);
    assert_eq!(v.len(), 50);
    assert_eq!(v.get(49), 49);
    v.set_len(60);
    assert_eq!(v.get(55), 55);
    v.reset_ones();
    assert_eq!(v.get(10), 127);
    v.reset();
    assert_eq!(v.get(10), 0);
    v.clear();
    assert_eq!(v.pop(), None);
    v.push(3);
    assert_eq!(v.iter().collect(), vec![3]);
}

#[test]
fn filled_packed_vectors() {
    let words = BitFieldVec::fill_words(4, 10, 0xF0F0_F0F0_F0F0_F0F0);
    let threes = BitFieldVec::fill(4, 10, 3);
    let ones = BitFieldVec::new_ones(4, 10);
    let blank = BitFieldVec::new_uninit(4, 10);
    assert_eq!(blank.len(), 10);
    assert_eq!(blank.bit_width(), 4);
    for i in 0..10usize {
        assert_eq!(words.get(i), if i % 2 == 0 { 0 } else { 15 });
        assert_eq!(threes.get(i), 3);
        assert_eq!(ones.get(i), 15);
    }
    let (data, bit_width, len) = threes.into_raw_parts();
    assert_eq!(data, vec![0x0000_0033_3333_3333]);
    let again = BitFieldVec::from_raw_parts(data, bit_width, len);
    assert!(again.is_valid());
    assert_eq!(again.get_unchecked(9), 3);
}

#[test]
fn the_least_width() {
    let v = BitFieldVec::from_slice(&[1, 2, 1000, 3]).unwrap();
    assert_eq!(v.bit_width(), 10);
    assert_eq!(v.iter().collect(), vec![1, 2, 1000, 3]);
    let zeros = BitFieldVec::from_slice(&[0, 0]).unwrap();
    assert_eq!(zeros.bit_width(), 0);
    let wide = BitFieldVec::from_slice(&[u64::MAX]).unwrap();
    assert_eq!(wide.bit_width(), 64);
    assert_eq!(wide.get(0), u64::MAX);
}

#[test]
fn unaligned_reads() {
    let v = BitFieldVec::from_raw_parts(
        vec![0x0706_0504_0302_0100, 0x0F0E_0D0C_0B0A_0908, 0],
        8,
        16,
    );
    // The word at the byte 0, as it is.
    assert_eq!(v.get_unaligned(0), 0x00);
    // The word at the byte 1 is 0x0807060504030201, moved down by 8 places.
    assert_eq!(v.get_unaligned(8), 0x02);
    assert_eq!(v.get_unaligned_unchecked(15), (0x0807_0605_0403_0201u64 >> 15) & 0xFF);
}

#[test]
fn unchecked_scans() {
    let mut v = BitFieldVec::new(11, 50);
    for i in 0..50usize {
        v.set_unchecked(i, (i * 31) as u64);
    }
    let mut forward = v.into_unchecked_iter_from(10);
    for i in 10..50usize {
        assert_eq!(forward.next_unchecked(), (i * 31) as u64);
    }
    let mut backward = v.into_rev_unchecked_iter();
    for i in (0..50usize).rev() {
        assert_eq!(backward.next_unchecked(), (i * 31) as u64);
    }
    let mut from = v.into_rev_unchecked_iter_from(20);
    assert_eq!(from.next_unchecked(), 19 * 31);
    let mut both = v.iter_to(3);
    assert_eq!(both.next_back(), Some(62));
    assert_eq!(both.next(), Some(0));
    assert_eq!(both.next(), Some(31));
    assert_eq!(both.next(), None);
    assert_eq!(both.next_back(), None);
    assert_eq!(v.iter_range(7, 3).len(), 0);
    assert_eq!(v.iter_range(7, 3).collect(), Vec::<u64>::new());
}
