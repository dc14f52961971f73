use sux::func::builder::{
    attempt, find_collision, largest_chunk, plan, segment_size, sign_keys, solve_chunks,
    split_chunks, Attempt, BuildError,
};
use sux::func::edge_list::EdgeList;
use sux::func::params::{choose_params, param_entry, pick_entry};
use sux::func::peel::{build_cells, peel};
use sux::func::function::Function;
use sux::func::remap::Remap;

#[test]
fn five_strings() {
    let keys: Vec<String> = ["apple", "banana", "cherry", "date", "elderberry"]
        .iter()
        .map(|s| s.to_string())
        .collect();
    let values: Vec<u64> = vec![0, 1, 2, 3, 4];
    let f = Function::new(&keys, &values, 3, 0).unwrap();
    assert_eq!(f.len(), 5);
    for (i, key) in keys.iter().enumerate() {
        assert_eq!(f.get(key), i as u64);
    }
}

#[test]
fn a_million_integers() {
    let n: usize = 1_000_000;
    let keys: Vec<u64> = (0..n as u64).collect();
    let values: Vec<u64> = (0..n as u64).collect();
    let f = Function::new(&keys, &values, 20, 0).unwrap();
    for i in 0..n {
        assert_eq!(f.get(&keys[i]), values[i]);
    }
    let (_, _, _, _, _, stored) = f.into_parts();
    assert!(stored.len() >= 1);
    // The space budget: fewer than 1.25 vertices for each key.
    assert!((stored.len() as f64) * 20.0 / (n as f64) < 1.25 * 20.0);
}

#[test]
fn no_key_and_one_key() {
    let none: Vec<u64> = vec![];
    let f = Function::new(&none, &[], 4, 0).unwrap();
    assert!(f.is_empty());
    assert!(f.get(&17) < 16);
    let one: Vec<u64> = vec![99];
    let f = Function::new(&one, &[11], 4, 3).unwrap();
    assert_eq!(f.len(), 1);
    assert_eq!(f.get(&99), 11);
}

/// A key whose signature is the same for all keys under the first `bad` seeds.
struct Colliding {
    key: u64,
    bad: u64,
}

impl Remap for Colliding {
    fn signature(key: &Self, seed: u64) -> (u64, u64) {
        let r = Self::remap(key, seed);
        (r[0], r[1])
    }

    fn remap(key: &Self, seed: u64) -> [u64; 2] {
        if seed < key.bad {
            [7, 7]
        } else {
            <u64 as Remap>::remap(&key.key, seed)
        }
    }
}

#[test]
fn one_collision_is_retried() {
    let keys: Vec<Colliding> = (0..100).map(|key| Colliding { key, bad: 1 }).collect();
    let values: Vec<u64> = (0..100).collect();
    assert!(matches!(attempt(&keys, &values, 7, 0, 0), Attempt::Duplicate));
    let f = Function::new(&keys, &values, 7, 0).unwrap();
    for i in 0..100usize {
        assert_eq!(f.get(&keys[i]), values[i]);
    }
}

#[test]
fn three_collisions_are_duplicate_keys() {
    let keys: Vec<Colliding> = (0..100).map(|key| Colliding { key, bad: 3 }).collect();
    let values: Vec<u64> = (0..100).collect();
    match Function::new(&keys, &values, 7, 0) {
        Err(e) => {
            assert_eq!(e, BuildError::DuplicateKeys);
            assert_eq!(e.message(), "duplicate keys");
        }
        Ok(_) => panic!("a function was built from colliding keys"),
    }
    let twice: Vec<u64> = vec![1, 2, 3, 2];
    assert!(matches!(
        Function::new(&twice, &[0, 1, 2, 3], 2, 0),
        Err(BuildError::DuplicateKeys)
    ));
}

#[test]
fn a_hundred_thousand_strings() {
    let keys: Vec<String> = (0..100_000).map(|i| format!("key-{}", i * 7919)).collect();
    let values: Vec<u64> = (0..100_000u64).map(|i| i % 1024).collect();
    let f = Function::new(&keys, &values, 10, 0).unwrap();
    for i in 0..keys.len() {
        assert_eq!(f.get(&keys[i]), values[i]);
    }
}

#[test]
fn signatures_of_integers_and_strings() {
    // An integer is signed through its eight bytes, lowest first.
    let seven = <u64 as Remap>::remap(&7, 3);
    assert_eq!(seven, sux::func::remap::remap_bytes(&[7, 0, 0, 0, 0, 0, 0, 0], 3));
    assert_ne!(seven, <u64 as Remap>::remap(&7, 4));
    assert_ne!(seven, <u64 as Remap>::remap(&8, 3));
    let text = "some text".to_string();
    assert_eq!(
        <String as Remap>::remap(&text, 11),
        sux::func::remap::remap_bytes("some text".as_bytes(), 11)
    );
    let hash = sux::spooky::spooky_short("some text".as_bytes(), 11);
    assert_eq!(<String as Remap>::remap(&text, 11), [hash[0], hash[1]]);
}

#[test]
fn several_chunks() {
    let n = 20_000usize;
    let keys: Vec<u64> = (0..n as u64).map(|i| i * 3 + 1).collect();
    let values: Vec<u64> = (0..n as u64).map(|i| i % 32).collect();
    let high_bits = 3u32;
    let (log2_l, c100) = pick_entry((n >> high_bits) as u64);
    let mut built = false;
    for seed in 0..50u64 {
        let mut sigs = sign_keys(&keys, &values, seed);
        sigs.sort();
        assert!(!find_collision(&sigs));
        let bounds = split_chunks(&sigs, high_bits, 7);
        assert_eq!(bounds.len(), 9);
        assert_eq!(bounds[0], 0);
        assert_eq!(bounds[8], n);
        for c in 0..8usize {
            for p in bounds[c]..bounds[c + 1] {
                assert_eq!((sigs[p].0 >> 61) as usize, c);
            }
        }
        let largest = largest_chunk(&bounds);
        assert_eq!(largest, (0..8).map(|c| bounds[c + 1] - bounds[c]).max().unwrap());
        let segment = segment_size(largest, log2_l, c100);
        let (num_vertices, total) = plan(high_bits, log2_l, segment, 5).unwrap();
        assert_eq!(num_vertices as u64, segment * ((1 << log2_l) + 2));
        assert_eq!(total, 8 * num_vertices);
        if let Some(data) =
            solve_chunks(&sigs, &bounds, high_bits, log2_l, segment, num_vertices, total, 5)
        {
            let f: Function<u64> =
                Function::from_parts(seed, log2_l, high_bits, n, segment as usize, data);
            for i in 0..n {
                assert_eq!(f.get(&keys[i]), values[i]);
                assert_eq!(f.get_by_sig(&<u64 as Remap>::remap(&keys[i], seed)), values[i]);
            }
            built = true;
            break;
        }
    }
    assert!(built);
}

#[test]
fn parameters() {
    // Chunks of fewer than 2^13 keys: one segment to start in, 1.23 vertices a key.
    assert_eq!(pick_entry(0), (0, 123));
    assert_eq!(pick_entry(8191), (0, 123));
    assert_eq!(pick_entry(8192), (5, 122));
    assert_eq!(pick_entry(1_000_000), (7, 114));
    assert_eq!(pick_entry(1 << 23), (8, 111));
    assert_eq!(pick_entry(1 << 26), (9, 110));
    assert_eq!(pick_entry(u64::MAX), (9, 110));
    assert_eq!(param_entry(0), (26, 9, 110));
    assert_eq!(param_entry(14), (0, 0, 123));
    // Chunk bits are given up until a chunk has 2^23 keys.
    assert_eq!(choose_params(1_000_000, 0), (0, 7, 114));
    assert_eq!(choose_params(1_000_000, 5), (0, 7, 114));
    assert_eq!(choose_params(1 << 25, 5), (2, 8, 111));
    assert_eq!(choose_params(1 << 25, 1), (1, 9, 111));
    assert_eq!(choose_params(0, 32), (0, 0, 123));
    // 1.14 vertices for each of a million keys, and 129 more, in 130 segments.
    assert_eq!(segment_size(1_000_000, 7, 114), 8771);
    assert_eq!(segment_size(5, 0, 123), 3);
    assert_eq!(segment_size(0, 0, 123), 1);
    assert_eq!(segment_size(100, 5, 122), 5);
}

#[test]
fn cells_of_the_graph() {
    let mut cell = EdgeList::new();
    assert_eq!(cell.degree(), 0);
    cell.add(5);
    cell.add(9);
    cell.add(1000);
    assert_eq!(cell.degree(), 3);
    assert_eq!(cell.edge_index(), 1014);
    cell.remove(9);
    cell.remove(1000);
    assert_eq!(cell.degree(), 1);
    assert_eq!(cell.edge_index(), 5);
    cell.dec();
    assert_eq!(cell.degree(), 0);
    assert_eq!(cell.edge_index(), 5);
    assert_eq!(cell.0, 5);
}

#[test]
fn peeling_a_small_graph() {
    // One key: its three vertices in three segments in a row.
    let one = vec![(0u64, 0u64, 9u64)];
    let (stack, cells, _) = peel(&one, 0, 1, 0, 2, 6).unwrap();
    assert_eq!(stack.len(), 1);
    assert_eq!(cells[stack[0]].edge_index(), 0);
    // The same key twice: each vertex is touched by both, nothing peels.
    let twice = vec![(0u64, 0u64, 9u64), (0u64, 0u64, 9u64)];
    assert!(peel(&twice, 0, 2, 0, 2, 6).is_none());
    assert!(build_cells(&twice, 0, 2, 0, 2, 6).is_some());
    // More edges at one vertex than a cell can count.
    let crowd = vec![(0u64, 0u64, 0u64); 1024];
    assert!(build_cells(&crowd, 0, 1024, 0, 2, 6).is_none());
    assert!(build_cells(&crowd, 0, 1023, 0, 2, 6).is_some());
}

#[test]
fn what_does_not_fit() {
    // Four thousand million chunks of vertices of 64 bits each.
    assert_eq!(plan(32, 16, 1 << 32, 64), None);
    assert_eq!(plan(0, 0, 3, 64), Some((9, 9)));
    assert_eq!(plan(2, 5, 10, 7), Some((340, 1360)));
    assert_eq!(BuildError::TooLarge.message(), "too many vertices for this machine");
    assert_eq!(BuildError::SeedsExhausted.message(), "no seed left to try");
}

#[test]
fn string_slices_and_rehashing() {
    assert_eq!(
        <str as Remap>::remap("some text", 5),
        <String as Remap>::remap(&"some text".to_string(), 5)
    );
    assert_eq!(
        <[u8] as Remap>::remap("some text".as_bytes(), 5),
        <str as Remap>::remap("some text", 5)
    );
    let keys: Vec<Vec<u8>> = (0..50u8).map(|i| vec![i, i / 2, 7]).collect();
    let values: Vec<u64> = (0..50).collect();
    let f = Function::new(&keys, &values, 6, 0).unwrap();
    for i in 0..50usize {
        assert_eq!(f.get(&keys[i]), values[i]);
    }
    let sig = <u64 as Remap>::remap(&12, 0);
    let again = sux::spooky::spooky_short_rehash(&sig, 9);
    assert_eq!(
        again,
        sux::spooky::spooky_short_mix([
            9,
            sux::spooky::SC_CONST.wrapping_add(sig[0]),
            sux::spooky::SC_CONST.wrapping_add(sig[1]),
            sux::spooky::SC_CONST,
        ])
    );
    assert_ne!(again, sux::spooky::spooky_short_rehash(&sig, 10));
    // The mixing steps, on a state of small numbers.
    let mixed = sux::spooky::spooky_short_mix([0, 0, 0, 1]);
    assert_eq!(mixed[0] == 0 && mixed[1] == 0 && mixed[2] == 0 && mixed[3] == 0, false);
    assert_eq!(sux::spooky::spooky_short_mix([0, 0, 0, 0]), [0, 0, 0, 0]);
    assert_eq!(sux::spooky::spooky_short_end([0, 0, 0, 0]), [0, 0, 0, 0]);
    // Keys of every length up to three blocks hash apart.
    let bytes: Vec<u8> = (0..100u8).collect();
    let mut seen = std::collections::HashSet::new();
    for len in 0..100usize {
        assert!(seen.insert(sux::spooky::spooky_short(&bytes[..len], 1)));
    }
}
