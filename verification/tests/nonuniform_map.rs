use compressed_map::blocks::Blocks;
use compressed_map::builder::{BuildOptions, PhaseSolution, PhaseTask};
use compressed_map::map::{CompressedMap, MapCore};
use rand::rngs::StdRng;
use rand::{Rng, SeedableRng};
use std::cell::RefCell;
use std::collections::HashMap;

/// How the stand-in derives the hash key of a phase.
fn choose_key(parent: [u8; 16], salt: u8) -> [u8; 16] {
    let mut key = parent;
    for (i, byte) in key.iter_mut().enumerate() {
        *byte = byte.rotate_left(3) ^ salt.wrapping_add(i as u8).wrapping_mul(31);
    }
    key
}

/// A stand-in for the retrieval structures, keyed by the number of a key.
struct Toy {
    stored: RefCell<Vec<HashMap<usize, u32>>>,
}

impl Toy {
    fn new() -> Toy {
        Toy { stored: RefCell::new(Vec::new()) }
    }

    fn lookup(&self, phase: usize, key: usize, nbits: u32) -> u32 {
        let mask = if nbits >= 32 { u32::MAX } else { (1u32 << nbits) - 1 };
        match self.stored.borrow()[phase].get(&key) {
            Some(bits) => *bits,
            None => {
                let x = (key as u32).wrapping_mul(2246822519).wrapping_add(phase as u32 * 668265263);
                (x ^ (x >> 15)) & mask
            }
        }
    }

    fn solve(&self, task: PhaseTask) -> Option<PhaseSolution> {
        let shift = task.options.shift as u32;
        let nbits = task.options.bits_per_value.unwrap() as u32;
        let mask = if nbits >= 32 { u32::MAX } else { (1u32 << nbits) - 1 };
        let mut table = HashMap::new();
        for (key, target) in task.entries.iter() {
            table.insert(*key, (*target >> shift) & mask);
        }
        let phase = self.stored.borrow().len();
        self.stored.borrow_mut().push(table);
        let replayed = task.replay.iter().map(|key| self.lookup(phase, *key, nbits)).collect();
        let try_num = 1 + (phase as u8 % 3);
        let hash_key = choose_key(task.options.key_gen.unwrap_or([0u8; 16]), try_num);
        Some(PhaseSolution {
            core: MapCore {
                hash_key,
                bits_per_value: nbits as u8,
                nblocks: 2 + phase,
                blocks: Blocks::Owned(vec![phase as u8; (2 + phase) * 4 * nbits as usize]),
            },
            try_num,
            replayed,
        })
    }
}

#[test]
fn test_nonuniform_map() {
    let toy = Toy::new();
    assert!(CompressedMap::<u32>::build(Vec::new(), &Vec::new(), &mut BuildOptions::default(), |task| toy
        .solve(task))
    .is_none());
    for i in 0u32..100 {
        let mut seed = [0u8; 32];
        seed[0..4].copy_from_slice(&i.to_le_bytes());
        let mut rng: StdRng = SeedableRng::from_seed(seed);
        let mut map = HashMap::new();
        let n_items = i / 10 + 1;
        let pr_splits: Vec<f64> = (0..n_items).map(|_| rng.gen_range(0.0..1.0)).collect();

        let nitems = 1000;
        for _ in 0..nitems {
            let mut v = n_items - 1;
            for (i, p) in (&pr_splits).into_iter().enumerate() {
                if rng.gen_range(0.0..1.0) < *p {
                    v = i as u32;
                    break;
                }
            }
            map.insert(rng.gen::<u32>(), v);
        }

        let mut options = BuildOptions::default();
        options.key_gen = Some(seed[..16].try_into().unwrap());

        let mut values: Vec<u32> = map.values().copied().collect();
        values.sort();
        values.dedup();
        let keys: Vec<u32> = map.keys().copied().collect();
        let labels: Vec<usize> = keys.iter().map(|k| values.binary_search(&map[k]).unwrap()).collect();

        let toy = Toy::new();
        let compressed_map = CompressedMap::build(values, &labels, &mut options, |task| toy.solve(task)).unwrap();
        for (number, k) in keys.iter().enumerate() {
            let cores = compressed_map.cores();
            let found = *compressed_map.query(|phase| toy.lookup(phase, number, cores[phase].bits_per_value as u32));
            assert_eq!(found, map[k]);
        }

        /* test serialization */
        let ser = compressed_map.encode();
        let deser = CompressedMap::<u32>::borrow_decode(&ser, choose_key);
        assert!(deser.is_ok());
        let (read, used) = deser.unwrap();
        assert_eq!(used, ser.len());
        assert_eq!(compressed_map, read);
    }
}

#[test]
fn another_seed_changes_the_bytes_but_not_the_answers() {
    let labels: Vec<usize> = (0..300).map(|i| if i % 7 == 0 { 2 } else { i % 2 }).collect();
    let values = vec![11u32, 22, 33];
    let mut bytes = Vec::new();
    for seed in [1u8, 2u8] {
        let toy = Toy::new();
        let mut options = BuildOptions::default();
        options.key_gen = Some([seed; 16]);
        let map = CompressedMap::build(values.clone(), &labels, &mut options, |task| toy.solve(task)).unwrap();
        for (key, label) in labels.iter().enumerate() {
            let cores = map.cores();
            let found = *map.query(|phase| toy.lookup(phase, key, cores[phase].bits_per_value as u32));
            assert_eq!(found, values[*label]);
        }
        bytes.push(map.encode());
    }
    assert_ne!(bytes[0], bytes[1]);
}

#[test]
fn equal_builds_give_equal_bytes() {
    let labels: Vec<usize> = (0..500).map(|i| (i * i) % 5).collect();
    let values = vec![5u32, 4, 3, 2, 1];
    let mut bytes = Vec::new();
    let mut tries = Vec::new();
    for _ in 0..2 {
        let toy = Toy::new();
        let mut options = BuildOptions::default();
        options.key_gen = Some([9u8; 16]);
        let map = CompressedMap::build(values.clone(), &labels, &mut options, |task| toy.solve(task)).unwrap();
        bytes.push(map.encode());
        tries.push(options.try_num);
    }
    assert_eq!(bytes[0], bytes[1]);
    assert_eq!(tries[0], tries[1]);
    assert!(tries[0] > 0);
}

#[test]
fn a_failing_solver_fails_the_build() {
    let labels: Vec<usize> = vec![0, 1, 1, 0, 1];
    let mut options = BuildOptions::default();
    options.try_num = 7;
    let map = CompressedMap::build(vec![1u32, 2], &labels, &mut options, |_task| None);
    assert!(map.is_none());
    assert_eq!(options.try_num, 7);
}

#[test]
fn the_solver_is_asked_phase_by_phase() {
    let labels: Vec<usize> = vec![0, 0, 0, 0, 0, 1, 1, 1, 2, 2];
    let asked: RefCell<Vec<(u8, u8, usize, Vec<(usize, u32)>, Vec<usize>, Option<[u8; 16]>)>> = RefCell::new(Vec::new());
    let toy = Toy::new();
    let mut options = BuildOptions::default();
    options.max_tries = 100;
    options.try_num = 10;
    let map = CompressedMap::build(vec![100u32, 200, 300], &labels, &mut options, |task| {
        asked.borrow_mut().push((
            task.options.shift,
            task.options.bits_per_value.unwrap(),
            task.options.max_tries,
            task.entries.clone(),
            task.replay.clone(),
            task.options.key_gen,
        ));
        toy.solve(task)
    })
    .unwrap();
    let asked = asked.into_inner();
    // widths: 200 has 2^30, 300 has 2^29, 100 has 2^31 + 2^29 and comes last
    assert_eq!(map.plan(), (1 << 31) | (1 << 30) | (1 << 29));
    assert_eq!(asked.len(), 3);
    let hi_200 = (1u32 << 30) - 1;
    let hi_300 = (1u32 << 30) + (1 << 29) - 1;
    let hi_100 = u32::MAX;
    // phase 0: bit 29; settles value 300 (keys 8, 9); the odd entry is replayed from here on
    assert_eq!((asked[0].0, asked[0].1, asked[0].2), (29, 1, 90));
    assert_eq!(asked[0].3, vec![(8, hi_300), (9, hi_300)]);
    assert_eq!(asked[0].4, vec![0, 1, 2, 3, 4]);
    assert_eq!(asked[0].5, None);
    // phase 1: bit 30; takes up value 200 (keys 5, 6, 7) as well
    assert_eq!((asked[1].0, asked[1].1, asked[1].2), (30, 1, 89));
    assert_eq!(asked[1].3, vec![(8, hi_300), (9, hi_300), (5, hi_200), (6, hi_200), (7, hi_200)]);
    assert_eq!(asked[1].4, vec![0, 1, 2, 3, 4]);
    assert_eq!(asked[1].5, Some(map.cores()[0].hash_key));
    // phase 2: bit 31; the keys of the odd entry whose bits so far lie below its interval come first
    assert_eq!((asked[2].0, asked[2].1, asked[2].2), (31, 1, 87));
    let lo_100 = (1u32 << 30) + (1 << 29);
    let mut expected = Vec::new();
    for key in 0..5 {
        let seen = (toy.lookup(0, key, 1) << 29) | (toy.lookup(1, key, 1) << 30);
        if seen < lo_100 {
            expected.push((key, hi_100));
        }
    }
    expected.extend(vec![(8, hi_300), (9, hi_300), (5, hi_200), (6, hi_200), (7, hi_200)]);
    assert_eq!(asked[2].3, expected);
    assert_eq!(asked[2].4, Vec::<usize>::new());
    assert_eq!(map.salt(), &vec![2u8, 3u8]);
    assert_eq!(options.try_num, 10 + 1 + 2 + 3);
}
