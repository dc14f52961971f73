use rand::rngs::SmallRng;
use rand::Rng;
use rand::SeedableRng;
use sux::bits::bit_field_vec::BitFieldVec;
use sux::bits::bitmap::{Bitmap, CountingBitmap};
use sux::dict::elias_fano::{EliasFano, EliasFanoBuilder};
use sux::func::function::Function;
use sux::traits::serdes::{
    encase, read_uint, write_uint, Backend, ByteOrder, Deserialize, DeserializeError, MemCase,
    Serialize,
};

const ORDERS: [ByteOrder; 2] = [ByteOrder::Little, ByteOrder::Big];

/// A small generator of numbers that look random.
fn next(state: &mut u64) -> u64 {
    *state = state.wrapping_mul(6364136223846793005).wrapping_add(1442695040888963407);
    *state >> 33
}

#[test]
fn test_serdes() {
    let mut rng = SmallRng::seed_from_u64(0);
    let mut v = BitFieldVec::new(4, 200);
    for i in 0..200usize {
        v.set(i, rng.gen_range(0..(1 << 4)));
    }
    let mut file: Vec<u8> = Vec::new();
    v.serialize(&mut file, ByteOrder::native());
    let (w, _) = BitFieldVec::deserialize(&file, 0, ByteOrder::native()).unwrap();
    for i in 0..200usize {
        assert_eq!(v.get(i), w.get(i));
    }
}

#[test]
fn the_order_of_this_machine() {
    let expected = if u32::from_ne_bytes([1, 0, 0, 0]) == 1 {
        ByteOrder::Little
    } else {
        ByteOrder::Big
    };
    assert_eq!(ByteOrder::native(), expected);
    assert_eq!(ByteOrder::native(), ByteOrder::of_one(1u16.to_ne_bytes()));
    assert_eq!(ByteOrder::of_one([1, 0]), ByteOrder::Little);
    assert_eq!(ByteOrder::of_one([0, 1]), ByteOrder::Big);
}

#[test]
fn numbers_in_both_orders() {
    let mut bytes: Vec<u8> = vec![0xAA];
    write_uint(&mut bytes, 0x0102_0304_0506_0708, 8, ByteOrder::Little);
    write_uint(&mut bytes, 0x0102_0304_0506_0708, 8, ByteOrder::Big);
    write_uint(&mut bytes, 0x0A0B, 2, ByteOrder::Big);
    assert_eq!(
        bytes,
        vec![0xAA, 8, 7, 6, 5, 4, 3, 2, 1, 1, 2, 3, 4, 5, 6, 7, 8, 0x0A, 0x0B]
    );
    assert_eq!(read_uint(&bytes, 1, 8, ByteOrder::Little), 0x0102_0304_0506_0708);
    assert_eq!(read_uint(&bytes, 9, 8, ByteOrder::Big), 0x0102_0304_0506_0708);
    assert_eq!(read_uint(&bytes, 17, 2, ByteOrder::Little), 0x0B0A);
    for &order in ORDERS.iter() {
        let mut out: Vec<u8> = Vec::new();
        assert_eq!(0xABu8.serialize(&mut out, order), 1);
        assert_eq!(0xABCDu16.serialize(&mut out, order), 2);
        assert_eq!(0xABCD_EF01u32.serialize(&mut out, order), 4);
        assert_eq!(0xABCD_EF01_2345_6789u64.serialize(&mut out, order), 8);
        assert_eq!(77usize.serialize(&mut out, order), 8);
        assert_eq!(u8::deserialize(&out, 0, order), Ok((0xAB, 1)));
        assert_eq!(u16::deserialize(&out, 1, order), Ok((0xABCD, 3)));
        assert_eq!(u32::deserialize(&out, 3, order), Ok((0xABCD_EF01, 7)));
        assert_eq!(u64::deserialize(&out, 7, order), Ok((0xABCD_EF01_2345_6789, 15)));
        assert_eq!(usize::deserialize(&out, 15, order), Ok((77, 23)));
        assert_eq!(u64::deserialize(&out, 16, order), Err(DeserializeError::UnexpectedEnd));
        assert_eq!(u8::deserialize(&out, 23, order), Err(DeserializeError::UnexpectedEnd));
    }
}

#[test]
fn words_start_at_a_multiple_of_eight() {
    for &order in ORDERS.iter() {
        for lead in 0..9usize {
            let mut bytes: Vec<u8> = vec![0xEE; lead];
            let words: Vec<u64> = vec![1, u64::MAX, 0x0123_4567_89AB_CDEF];
            let written = words.serialize(&mut bytes, order);
            assert_eq!(bytes.len(), lead + written);
            let pad = (8 - (lead + 8) % 8) % 8;
            assert_eq!(written, 8 + pad + 24);
            assert_eq!(read_uint(&bytes, lead, 8, order), 3);
            assert_eq!(read_uint(&bytes, lead + 8 + pad, 8, order), 1);
            let (read, next) = Vec::<u64>::deserialize(&bytes, lead, order).unwrap();
            assert_eq!(read, words);
            assert_eq!(next, bytes.len());
        }
    }
}

#[test]
fn packed_vectors_come_back() {
    let mut state = 7u64;
    for &order in ORDERS.iter() {
        for bit_width in [0usize, 1, 3, 8, 31, 63, 64] {
            for len in [0usize, 1, 64, 65, 200] {
                let mask = if bit_width == 0 { 0 } else { u64::MAX >> (64 - bit_width) };
                let mut v = BitFieldVec::new(bit_width, len);
                for i in 0..len {
                    v.set(i, next(&mut state).wrapping_mul(0x9E37_79B9_7F4A_7C15) & mask);
                }
                let mut bytes: Vec<u8> = vec![1, 2, 3];
                let written = v.serialize(&mut bytes, order);
                assert_eq!(written, 16 + 5 + 8 * ((len * bit_width + 63) / 64));
                bytes.push(0xFF);
                let (w, next) = BitFieldVec::deserialize(&bytes, 3, order).unwrap();
                assert_eq!(next, 3 + written);
                assert_eq!(w.bit_width(), bit_width);
                assert_eq!(w.len(), len);
                for i in 0..len {
                    assert_eq!(w.get(i), v.get(i));
                }
            }
        }
    }
}

#[test]
fn bitmaps_come_back() {
    for &order in ORDERS.iter() {
        let mut bitmap = Bitmap::new(300);
        for p in (0..300usize).filter(|p| p % 7 == 0 || p % 11 == 3) {
            bitmap.set(p, 1);
        }
        let ones = bitmap.count_ones();
        let mut bytes: Vec<u8> = Vec::new();
        bitmap.serialize(&mut bytes, order);
        let (read, next) = Bitmap::deserialize(&bytes, 0, order).unwrap();
        assert_eq!(next, bytes.len());
        for p in 0..300usize {
            assert_eq!(read.get(p), bitmap.get(p));
        }
        let counting = bitmap.with_count(ones);
        let mut bytes: Vec<u8> = vec![9];
        counting.serialize(&mut bytes, order);
        let (read, next) = CountingBitmap::deserialize(&bytes, 1, order).unwrap();
        assert_eq!(next, bytes.len());
        assert_eq!(read.count(), ones);
        for rank in 0..ones {
            assert_eq!(read.select(rank), counting.select(rank));
        }
        // A count that is not the number of set bits is refused.
        let mut wrong = bytes.clone();
        wrong[1] ^= 1;
        wrong[8] ^= 1;
        assert!(matches!(
            CountingBitmap::deserialize(&wrong, 1, order),
            Err(DeserializeError::Invalid)
        ));
    }
}

#[test]
fn sequences_come_back() {
    for &order in ORDERS.iter() {
        let values: Vec<usize> = (0..400usize).map(|i| i * i + i / 3).collect();
        let mut builder = EliasFanoBuilder::new(*values.last().unwrap(), values.len());
        for &v in values.iter() {
            builder.push(v).unwrap();
        }
        let ef = builder.build();
        let mut bytes: Vec<u8> = vec![0; 5];
        let written = ef.serialize(&mut bytes, order);
        assert_eq!(bytes.len(), 5 + written);
        let (read, next) = EliasFano::deserialize(&bytes, 5, order).unwrap();
        assert_eq!(next, bytes.len());
        assert_eq!(read.len(), values.len());
        for i in 0..values.len() {
            assert_eq!(read.get(i), values[i]);
        }
        assert!(matches!(
            EliasFano::deserialize(&bytes[..bytes.len() - 1], 5, order),
            Err(DeserializeError::UnexpectedEnd)
        ));
    }
}

#[test]
fn functions_come_back() {
    let keys: Vec<String> = ["apple", "banana", "cherry", "date", "elderberry"]
        .iter()
        .map(|s| s.to_string())
        .collect();
    let values: Vec<u64> = vec![0, 1, 2, 3, 4];
    let f = Function::new(&keys, &values, 3, 0).unwrap();
    for &order in ORDERS.iter() {
        let mut bytes: Vec<u8> = Vec::new();
        let written = f.serialize(&mut bytes, order);
        assert_eq!(written, bytes.len());
        // Six numbers in 36 bytes, the width and the number of the values,
        // four bytes to reach a multiple of eight, and the words.
        let (.., stored) = f.as_parts();
        assert_eq!(written, 36 + 16 + 4 + 8 * ((stored.len() * 3 + 63) / 64));
        assert_eq!(read_uint(&bytes, 36, 8, order), 3);
        assert_eq!(read_uint(&bytes, 44, 8, order), stored.len() as u64);
        let (g, next) = Function::<String>::deserialize(&bytes, 0, order).unwrap();
        assert_eq!(next, bytes.len());
        assert_eq!(g.len(), 5);
        for (i, key) in keys.iter().enumerate() {
            assert_eq!(g.get(key), i as u64);
        }
        let case: MemCase<Function<String>> = MemCase::new(g, Backend::Memory(vec![0; 4]));
        assert_eq!(case.as_ref().get(&keys[2]), 2);
        assert_eq!(case.deref().len(), 5);
        // Fewer values than the chunks have vertices: no function.
        let mut wrong = bytes.clone();
        let len_at = 44 + if matches!(order, ByteOrder::Little) { 0 } else { 7 };
        wrong[len_at] ^= 1;
        assert!(Function::<String>::deserialize(&wrong, 0, order).is_err());
        assert!(matches!(
            Function::<String>::deserialize(&bytes[..40], 0, order),
            Err(DeserializeError::UnexpectedEnd)
        ));
    }
}

#[test]
fn cases() {
    let mut case = encase(vec![1u64, 2, 3]);
    assert_eq!(case.as_ref().len(), 3);
    case.as_mut().push(4);
    case.deref_mut().push(5);
    assert_eq!(case.deref(), &vec![1u64, 2, 3, 4, 5]);
    let other = MemCase::from(7u32);
    assert_eq!(other.into_inner(), 7);
    assert_eq!(sux::traits::serdes::words_for_bytes(0), 0);
    assert_eq!(sux::traits::serdes::words_for_bytes(8), 1);
    assert_eq!(sux::traits::serdes::words_for_bytes(9), 2);
}
