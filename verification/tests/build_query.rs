use compressed_map::blocks::Blocks;
use compressed_map::builder::{BuildOptions, PhaseSolution, PhaseTask};
use compressed_map::map::{CompressedMap, MapCore};
use std::cell::RefCell;
use std::collections::HashMap;

/// A stand-in for the retrieval structures: it remembers what each phase was
/// asked to store, and answers with scrambled bits for every other key.
struct Toy {
    stored: RefCell<Vec<HashMap<usize, u32>>>,
}

impl Toy {
    fn new() -> Toy {
        Toy { stored: RefCell::new(Vec::new()) }
    }

    fn lookup(&self, phase: usize, key: usize, nbits: u32) -> u32 {
        let stored = self.stored.borrow();
        let mask = if nbits >= 32 { u32::MAX } else { (1u32 << nbits) - 1 };
        match stored[phase].get(&key) {
            Some(bits) => *bits,
            None => {
                let x = (key as u32).wrapping_mul(2654435761).wrapping_add(phase as u32 * 40503);
                (x ^ (x >> 13)) & mask
            }
        }
    }

    fn solve(&self, task: PhaseTask) -> Option<PhaseSolution> {
        let shift = task.options.shift as u32;
        let nbits = task.options.bits_per_value.unwrap() as u32;
        let mask = if nbits >= 32 { u32::MAX } else { (1u32 << nbits) - 1 };
        let mut table = HashMap::new();
        for (key, target) in task.entries.iter() {
            table.insert(*key, (*target >> shift) & mask);
        }
        let phase = self.stored.borrow().len();
        self.stored.borrow_mut().push(table);
        let replayed = task.replay.iter().map(|key| self.lookup(phase, *key, nbits)).collect();
        let mut hash_key = [0u8; 16];
        hash_key[0] = phase as u8;
        Some(PhaseSolution {
            core: MapCore { hash_key, bits_per_value: nbits as u8, nblocks: 2, blocks: Blocks::Owned(vec![0u8; 8 * nbits as usize]) },
            try_num: 1,
            replayed,
        })
    }
}

fn build_toy(values: Vec<u32>, labels: &Vec<usize>) -> (Toy, CompressedMap<'static, u32>) {
    let toy = Toy::new();
    let mut options = BuildOptions::default();
    let map = CompressedMap::build(values, labels, &mut options, |task| toy.solve(task)).unwrap();
    (toy, map)
}

fn ask(toy: &Toy, map: &CompressedMap<'static, u32>, key: usize) -> u32 {
    let cores = map.cores();
    *map.query(|phase| toy.lookup(phase, key, cores[phase].bits_per_value as u32))
}

fn labels_of(counts: &[usize]) -> Vec<usize> {
    let mut labels = Vec::new();
    for (v, c) in counts.iter().enumerate() {
        for _ in 0..*c {
            labels.push(v);
        }
    }
    labels
}

#[test]
fn empty_input_gives_no_map() {
    let toy = Toy::new();
    let mut options = BuildOptions::default();
    let map = CompressedMap::<u32>::build(Vec::new(), &Vec::new(), &mut options, |task| toy.solve(task));
    assert!(map.is_none());
}

#[test]
fn single_value_needs_no_phase() {
    let (toy, map) = build_toy(vec![7], &vec![0, 0, 0]);
    assert_eq!(map.plan(), 0);
    assert_eq!(map.response_map(), &vec![(0u32, 7u32)]);
    assert_eq!(map.cores().len(), 0);
    assert_eq!(map.salt().len(), 0);
    for key in 0..10 {
        assert_eq!(ask(&toy, &map, key), 7);
    }
}

#[test]
fn two_balanced_values_share_the_top_bit() {
    let labels = labels_of(&[500, 500]);
    let (toy, map) = build_toy(vec![10, 20], &labels);
    assert_eq!(map.plan(), 1u32 << 31);
    assert_eq!(map.response_map(), &vec![(0u32, 10u32), (1u32 << 31, 20u32)]);
    assert_eq!(map.cores().len(), 1);
    assert_eq!(map.cores()[0].bits_per_value, 1);
    for (key, label) in labels.iter().enumerate() {
        assert_eq!(ask(&toy, &map, key), [10, 20][*label]);
    }
}

#[test]
fn two_skewed_values_have_no_odd_width() {
    let labels = labels_of(&[999, 1]);
    let (toy, map) = build_toy(vec![0, 1], &labels);
    let table = map.response_map();
    assert_eq!(table.len(), 2);
    assert_eq!(table[0], (0, 1));
    assert_eq!(table[1], (1 << 23, 0));
    let common = 0u32.wrapping_sub(table[1].0);
    assert_eq!(common as u64, (1u64 << 32) - (1 << 23));
    assert_eq!(map.plan(), (1 << 31) | (1 << 23));
    for (key, label) in labels.iter().enumerate() {
        assert_eq!(ask(&toy, &map, key), *label as u32);
    }
}

#[test]
fn three_values_with_an_odd_width_round_trip() {
    let labels = labels_of(&[5, 3, 2]);
    let (toy, map) = build_toy(vec![100, 200, 300], &labels);
    let table = map.response_map();
    assert_eq!(table.len(), 3);
    let mut odd = 0;
    for i in 0..3 {
        let next = if i + 1 < 3 { table[i + 1].0 } else { 0 };
        let width = next.wrapping_sub(table[i].0);
        if !width.is_power_of_two() {
            odd += 1;
        }
    }
    assert_eq!(odd, 1);
    assert_eq!(table, &vec![(0u32, 200u32), (1 << 30, 300), ((1 << 30) + (1 << 29), 100)]);
    assert_eq!(map.plan(), (1 << 31) | (1 << 30) | (1 << 29));
    for (key, label) in labels.iter().enumerate() {
        assert_eq!(ask(&toy, &map, key), [100, 200, 300][*label]);
    }
}

#[test]
fn many_shapes_round_trip() {
    let mut seed: u64 = 0x9e3779b97f4a7c15;
    for round in 0..200 {
        let nvalues = 2 + (round % 9);
        let mut counts = Vec::new();
        for _ in 0..nvalues {
            seed = seed.wrapping_mul(6364136223846793005).wrapping_add(1442695040888963407);
            let big = (seed >> 60) % 3 == 0;
            let c = 1 + ((seed >> 33) as usize % if big { 5000 } else { 20 });
            counts.push(c);
        }
        let labels = labels_of(&counts);
        let values: Vec<u32> = (0..nvalues as u32).map(|v| v * 3 + 1).collect();
        let (toy, map) = build_toy(values.clone(), &labels);
        assert_eq!(map.cores().len(), map.plan().count_ones() as usize);
        assert_eq!(map.salt().len(), map.cores().len().max(1) - 1);
        let table = map.response_map();
        assert_eq!(table[0].0, 0);
        let mut total: u64 = 0;
        let mut odd = 0;
        for i in 0..table.len() {
            let next: u64 = if i + 1 < table.len() { table[i + 1].0 as u64 } else { 1 << 32 };
            assert!(next > table[i].0 as u64);
            let width = next - table[i].0 as u64;
            total += width;
            if !width.is_power_of_two() {
                odd += 1;
            }
        }
        assert_eq!(total, 1 << 32);
        assert!(odd <= 1);
        for (key, label) in labels.iter().enumerate() {
            assert_eq!(ask(&toy, &map, key), values[*label]);
        }
    }
}
