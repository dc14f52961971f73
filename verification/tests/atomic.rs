use std::sync::atomic::Ordering;
use sux::bits::atomic_bit_field_vec::AtomicBitFieldVec;
use sux::bits::bit_field_vec::{field_update, read_field, BitFieldVec};

#[test]
fn eight_threads_on_their_own_stripes() {
    let len = 10_000usize;
    let vec = AtomicBitFieldVec::new(8, len);
    rayon::scope(|scope| {
        for id in 0..8usize {
            let vec = &vec;
            scope.spawn(move |_| {
                let mut i = id;
                while i < len {
                    vec.set_atomic(i, id as u64 + 1, Ordering::Relaxed);
                    i += 8;
                }
            });
        }
    });
    for i in 0..len {
        assert_eq!(vec.get_atomic(i, Ordering::Relaxed), (i % 8) as u64 + 1);
    }
}

#[test]
fn one_thread_every_width() {
    for bit_width in 0..64usize {
        let mask = if bit_width == 0 { 0 } else { u64::MAX >> (64 - bit_width) };
        let vec = AtomicBitFieldVec::new(bit_width, 150);
        assert_eq!(vec.bit_width(), bit_width);
        assert_eq!(vec.mask(), mask);
        assert_eq!(vec.len(), 150);
        for i in 0..150usize {
            vec.set_atomic(i, (i as u64 + 3).wrapping_mul(0xA076_1D64_78BD_642F) & mask, Ordering::SeqCst);
        }
        for i in 0..150usize {
            assert_eq!(
                vec.get_atomic(i, Ordering::Acquire),
                (i as u64 + 3).wrapping_mul(0xA076_1D64_78BD_642F) & mask
            );
        }
        let plain: BitFieldVec = vec.convert_to();
        for i in 0..150usize {
            assert_eq!(plain.get(i), (i as u64 + 3).wrapping_mul(0xA076_1D64_78BD_642F) & mask);
        }
    }
}

#[test]
fn shared_and_back() {
    let mut plain = BitFieldVec::new(13, 77);
    for i in 0..77usize {
        plain.set(i, (i * 97 % 8192) as u64);
    }
    let shared = plain.convert_to();
    for i in 0..77usize {
        assert_eq!(shared.get_atomic(i, Ordering::Relaxed), (i * 97 % 8192) as u64);
    }
    assert!(shared.capacity() >= 77);
    let (cells, bit_width, len) = shared.into_raw_parts();
    assert_eq!((bit_width, len), (13, 77));
    assert_eq!(cells.len(), (77 * 13 + 63) / 64);
    let mut again = AtomicBitFieldVec::from_raw_parts(cells, bit_width, len);
    assert_eq!(again.get_atomic(76, Ordering::Relaxed), (76 * 97 % 8192) as u64);
    again.reset_atomic(Ordering::Relaxed);
    for i in 0..77usize {
        assert_eq!(again.get_atomic(i, Ordering::Relaxed), 0);
    }
    again.reset_ones();
    assert_eq!(again.get_atomic(5, Ordering::Relaxed), 8191);
    again.reset();
    assert_eq!(again.get_atomic(5, Ordering::Relaxed), 0);
    again.clear();
    assert_eq!(again.len(), 0);
}

#[test]
fn filled_vectors() {
    let words = AtomicBitFieldVec::fill_words(4, 10, 0xF0F0_F0F0_F0F0_F0F0);
    for i in 0..10usize {
        assert_eq!(words.get_atomic(i, Ordering::Relaxed), if i % 2 == 0 { 0 } else { 15 });
    }
    let threes = AtomicBitFieldVec::fill(4, 10, 3);
    let ones = AtomicBitFieldVec::new_ones(4, 10);
    let empty = AtomicBitFieldVec::with_capacity(4, 10);
    let blank = AtomicBitFieldVec::new_uninit(4, 10);
    for i in 0..10usize {
        assert_eq!(threes.get_atomic(i, Ordering::Relaxed), 3);
        assert_eq!(ones.get_atomic(i, Ordering::Relaxed), 15);
        assert!(blank.get_atomic(i, Ordering::Relaxed) <= 15);
    }
    assert_eq!(empty.len(), 0);
    assert_eq!(blank.len(), 10);
}

#[test]
fn values_out_of_and_into_given_words() {
    // Inside one word: eight bits from the bit 8 on.
    assert_eq!(read_field(0x0000_0000_0000_AB00, 0xFFFF, 8, 8, 0xFF), 0xAB);
    // Across two words: four bits of the first and four of the second.
    assert_eq!(read_field(0x5000_0000_0000_0000, 0x0000_0000_0000_00C3, 60, 8, 0xFF), 0x35);
    assert_eq!(read_field(u64::MAX, u64::MAX, 17, 0, 0), 0);
    assert_eq!(read_field(0x0123_4567_89AB_CDEF, 1, 0, 64, u64::MAX), 0x0123_4567_89AB_CDEF);
    // What a write keeps and what it puts: inside one word the next word stays.
    let (low, high) = field_update(8, 8, 0xFF, 0xAB);
    assert_eq!(low, (!0xFF00u64, 0xAB00));
    assert_eq!(high, (u64::MAX, 0));
    let (low, high) = field_update(60, 8, 0xFF, 0x35);
    assert_eq!(low, (0x0FFF_FFFF_FFFF_FFFF, 0x5000_0000_0000_0000));
    assert_eq!(high, (!0xFu64, 0x3));
    // What was written is read, whatever the words held.
    for bit_width in 0..=64usize {
        let mask = if bit_width == 0 { 0 } else { u64::MAX >> (64 - bit_width) };
        for bit_index in 0..64usize {
            let value = 0xA5A5_5A5A_C3C3_3C3Cu64 & mask;
            let (low, high) = field_update(bit_index, bit_width, mask, value);
            for held in [0u64, u64::MAX, 0x0123_4567_89AB_CDEF] {
                let first = (held & low.0) | low.1;
                let second = (!held & high.0) | high.1;
                assert_eq!(read_field(first, second, bit_index, bit_width, mask), value);
            }
        }
    }
}
