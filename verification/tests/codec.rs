use compressed_map::blocks::Blocks;
use compressed_map::bits::{count_bits, floor_power_of_2, high_bit};
use compressed_map::map::{CompressedMap, MapCore};
use compressed_map::phases::{phase_shifts, span_mask};
use compressed_map::stage::phase_masks;
use compressed_map::value::Response;
use compressed_map::wire::{put_u32, put_u64, take_bytes, take_u32, take_u64, CodecError};

fn next_key(parent: [u8; 16], salt: u8) -> [u8; 16] {
    let mut key = parent;
    key[0] = key[0].wrapping_add(salt);
    key[15] ^= salt;
    key
}

/// A map of three values over two phases: bit 30 and bit 31.
fn sample() -> CompressedMap<'static, u32> {
    let key0 = [7u8; 16];
    let key1 = next_key(key0, 5);
    CompressedMap::from_parts(
        (1 << 31) | (1 << 30),
        vec![(0, 300), (1 << 30, 70000), (1 << 31, 5)],
        vec![5],
        vec![
            MapCore { hash_key: key0, bits_per_value: 1, nblocks: 2, blocks: Blocks::Owned(vec![1, 2, 3, 4, 5, 6, 7, 8]) },
            MapCore { hash_key: key1, bits_per_value: 1, nblocks: 3, blocks: Blocks::Owned(vec![9; 12]) },
        ],
    )
}

fn sample_bytes() -> Vec<u8> {
    let mut bytes = vec![b'c', b'n', b'm', b'1'];
    bytes.extend([2, 2, 2]); // two widths of 2^30: 1 leading zero, plus 1
    bytes.extend([251, 44, 1]); // 300
    bytes.extend([252, 0x70, 0x11, 0x01, 0x00]); // 70000
    bytes.extend([5]);
    bytes.extend([7u8; 16]);
    bytes.extend([252, 0, 0, 0, 0xc0]); // plan
    bytes.extend([5]); // salt
    bytes.extend([2, 3]); // nblocks
    bytes.extend([1, 2, 3, 4, 5, 6, 7, 8]);
    bytes.extend([9; 12]);
    bytes
}

#[test]
fn a_map_is_written_field_by_field() {
    assert_eq!(sample().encode(), sample_bytes());
}

#[test]
fn a_map_is_read_back() {
    let bytes = sample_bytes();
    let (map, used) = CompressedMap::<u32>::borrow_decode(&bytes, next_key).unwrap();
    assert_eq!(used, bytes.len());
    assert_eq!(map, sample());
    assert_eq!(CompressedMap::<u32>::from_bytes(&bytes, next_key), Ok(sample()));
}

#[test]
fn a_map_that_is_read_borrows_its_blocks_until_it_takes_them() {
    let owned: CompressedMap<'static, u32> = {
        let bytes = sample_bytes();
        let (map, _used) = CompressedMap::<u32>::borrow_decode(&bytes, next_key).unwrap();
        for core in map.cores() {
            assert!(matches!(core.blocks, Blocks::Borrowed(_)));
        }
        assert_eq!(map.cores()[0].blocks.as_slice().as_ptr(), bytes[bytes.len() - 20..].as_ptr());
        map.take_ownership()
    };
    for core in owned.cores() {
        assert!(matches!(core.blocks, Blocks::Owned(_)));
    }
    assert_eq!(owned, sample());
    assert_eq!(owned.cores()[1].blocks.as_slice(), &[9u8; 12]);
    // blocks are equal by their bytes, borrowed or owned
    let bytes = [1u8, 2, 3];
    assert_eq!(Blocks::Borrowed(&bytes), Blocks::Owned(vec![1, 2, 3]));
    assert_ne!(Blocks::Borrowed(&bytes), Blocks::Owned(vec![1, 2]));
    assert_ne!(Blocks::Borrowed(&bytes), Blocks::Owned(vec![1, 2, 4]));
    assert!(matches!(Blocks::Borrowed(&bytes).into_owned(), Blocks::Owned(_)));
}

#[test]
fn the_bytes_begin_with_the_magic_value() {
    assert_eq!(&sample().encode()[..4], b"cnm1");
}

#[test]
fn a_single_value_is_written_with_a_zero_hash_key() {
    let map = CompressedMap::from_parts(0, vec![(0u32, 7u64)], vec![], vec![]);
    let mut expected = vec![b'c', b'n', b'm', b'1', 0, 7];
    expected.extend([0u8; 16]);
    expected.push(0);
    assert_eq!(map.encode(), expected);
    assert_eq!(CompressedMap::<u64>::from_bytes(&expected, next_key), Ok(map));
}

#[test]
fn every_cut_of_the_bytes_is_refused() {
    let bytes = sample_bytes();
    for cut in 0..bytes.len() {
        assert!(CompressedMap::<u32>::borrow_decode(&bytes[..cut], next_key).is_err(), "cut at {}", cut);
        assert!(CompressedMap::<u32>::from_bytes(&bytes[..cut], next_key).is_err());
    }
}

#[test]
fn bytes_left_over_are_refused() {
    let mut bytes = sample_bytes();
    bytes.push(0);
    let (map, used) = CompressedMap::<u32>::borrow_decode(&bytes, next_key).unwrap();
    assert_eq!(map, sample());
    assert_eq!(used, bytes.len() - 1);
    assert_eq!(CompressedMap::<u32>::from_bytes(&bytes, next_key), Err(CodecError::TrailingBytes));
    assert_eq!(CodecError::TrailingBytes.describe(), "bytes left over on read_from_file");
}

#[test]
fn a_wrong_magic_value_is_refused() {
    for i in 0..4 {
        let mut bytes = sample_bytes();
        bytes[i] ^= 0x20;
        assert_eq!(CompressedMap::<u32>::borrow_decode(&bytes, next_key).err(), Some(CodecError::Magic));
    }
    assert_eq!(CodecError::Magic.describe(), "magic value mismatch");
}

#[test]
fn too_few_bytes_are_refused() {
    assert_eq!(CompressedMap::<u32>::borrow_decode(b"cnm", next_key).err(), Some(CodecError::UnexpectedEnd));
    assert_eq!(CompressedMap::<u32>::borrow_decode(&[], next_key).err(), Some(CodecError::UnexpectedEnd));
    // more widths announced than bytes follow
    assert_eq!(CompressedMap::<u32>::borrow_decode(b"cnm1\x09\x01", next_key).err(), Some(CodecError::UnexpectedEnd));
    let bytes = sample_bytes();
    assert_eq!(
        CompressedMap::<u32>::borrow_decode(&bytes[..bytes.len() - 1], next_key).err(),
        Some(CodecError::UnexpectedEnd)
    );
}

#[test]
fn a_broken_integer_is_refused() {
    // the number of widths uses a marker that bincode reserves
    assert_eq!(CompressedMap::<u32>::borrow_decode(b"cnm1\xff", next_key).err(), Some(CodecError::Integer));
    // the plan is written as a 64-bit integer
    let mut bytes = sample_bytes();
    let plan_at = 4 + 3 + 3 + 5 + 1 + 16;
    bytes[plan_at] = 253;
    assert_eq!(CompressedMap::<u32>::borrow_decode(&bytes, next_key).err(), Some(CodecError::Integer));
}

#[test]
fn a_broken_value_is_refused() {
    let mut bytes = sample_bytes();
    bytes[7] = 254;
    assert_eq!(CompressedMap::<u32>::borrow_decode(&bytes, next_key).err(), Some(CodecError::Value));
}

#[test]
fn a_logarithm_out_of_range_is_refused() {
    for bad in [0u8, 33, 255] {
        let mut bytes = sample_bytes();
        bytes[5] = bad;
        assert_eq!(CompressedMap::<u32>::borrow_decode(&bytes, next_key).err(), Some(CodecError::LogWidth));
    }
    assert_eq!(CodecError::LogWidth.describe(), "invalid logr");
}

#[test]
fn widths_beyond_the_locator_space_are_refused() {
    let mut bytes = sample_bytes();
    bytes[5] = 1;
    bytes[6] = 1;
    assert_eq!(CompressedMap::<u32>::borrow_decode(&bytes, next_key).err(), Some(CodecError::WidthOverflow));
}

#[test]
fn a_phase_with_fewer_than_two_blocks_is_refused() {
    let nblocks_at = 4 + 3 + 3 + 5 + 1 + 16 + 5 + 1;
    for bad in [0u8, 1] {
        let mut bytes = sample_bytes();
        bytes[nblocks_at] = bad;
        assert_eq!(CompressedMap::<u32>::borrow_decode(&bytes, next_key).err(), Some(CodecError::TooFewBlocks));
    }
    assert_eq!(CodecError::TooFewBlocks.describe(), "must have at least 2 nblocks");
}

#[test]
fn blocks_too_large_for_a_word_are_refused() {
    let mut bytes = vec![b'c', b'n', b'm', b'1', 0, 7];
    bytes.extend([0u8; 16]);
    bytes.extend([1]); // plan: one phase of 32 bits
    bytes.extend([253, 0, 0, 0, 0, 0, 0, 0, 0x80]); // nblocks 2^63
    assert_eq!(CompressedMap::<u32>::borrow_decode(&bytes, next_key).err(), Some(CodecError::BlockOverflow));
}

#[test]
fn the_widest_and_the_narrowest_width_are_read_back() {
    // log 1 stands for 2^31, log 32 for 1
    let wide = CompressedMap::from_parts(
        1u32 << 31,
        vec![(0u32, 1u32), (1 << 31, 2)],
        vec![],
        vec![MapCore { hash_key: [1; 16], bits_per_value: 1, nblocks: 2, blocks: Blocks::Owned(vec![0; 8]) }],
    );
    let bytes = wide.encode();
    assert_eq!(bytes[4..6], [1, 1]);
    assert_eq!(CompressedMap::<u32>::from_bytes(&bytes, next_key), Ok(wide));
    let narrow = CompressedMap::from_parts(
        1u32,
        vec![(0u32, 1u32), (1, 2)],
        vec![],
        vec![MapCore { hash_key: [1; 16], bits_per_value: 32, nblocks: 2, blocks: Blocks::Owned(vec![0; 256]) }],
    );
    let bytes = narrow.encode();
    assert_eq!(bytes[4..6], [1, 32]);
    assert_eq!(CompressedMap::<u32>::from_bytes(&bytes, next_key), Ok(narrow));
}

#[test]
fn integers_take_the_variable_length_form() {
    let cases: Vec<(u64, Vec<u8>)> = vec![
        (0, vec![0]),
        (250, vec![250]),
        (251, vec![251, 251, 0]),
        (300, vec![251, 44, 1]),
        (65535, vec![251, 255, 255]),
        (65536, vec![252, 0, 0, 1, 0]),
        (u32::MAX as u64, vec![252, 255, 255, 255, 255]),
        (1 << 32, vec![253, 0, 0, 0, 0, 1, 0, 0, 0]),
        (u64::MAX, vec![253; 1].into_iter().chain([255; 8]).collect()),
    ];
    for (x, bytes) in cases {
        let mut out = vec![42];
        put_u64(&mut out, x);
        assert_eq!(out[0], 42);
        assert_eq!(&out[1..], &bytes[..]);
        let mut padded = vec![9, 9];
        padded.extend(&bytes);
        padded.extend([1, 2, 3]);
        assert_eq!(take_u64(&padded, 2), Ok((x, 2 + bytes.len())));
        if x <= u32::MAX as u64 {
            let mut out = Vec::new();
            put_u32(&mut out, x as u32);
            assert_eq!(out, bytes);
            assert_eq!(take_u32(&padded, 2), Ok((x as u32, 2 + bytes.len())));
        } else {
            assert_eq!(take_u32(&padded, 2), Err(CodecError::Integer));
        }
    }
    assert_eq!(take_u64(&[251, 1], 0), Err(CodecError::Integer));
    assert_eq!(take_u64(&[254, 0, 0, 0, 0, 0, 0, 0, 0, 0, 0, 0, 0, 0, 0, 0, 0], 0), Err(CodecError::Integer));
    assert_eq!(take_u64(&[1, 2], 2), Err(CodecError::Integer));
    // a small number behind a marker is accepted as it stands
    assert_eq!(take_u32(&[251, 3, 0], 0), Ok((3, 3)));
}

#[test]
fn bytes_are_taken_by_length() {
    assert_eq!(take_bytes(&[1, 2, 3, 4], 1, 2), Ok((vec![2, 3], 3)));
    assert_eq!(take_bytes(&[1, 2, 3, 4], 4, 0), Ok((vec![], 4)));
    assert_eq!(take_bytes(&[1, 2, 3, 4], 3, 2), Err(CodecError::UnexpectedEnd));
}

#[test]
fn values_are_written_as_integers() {
    let mut out = Vec::new();
    7u32.encode(&mut out);
    70000u32.encode(&mut out);
    (1u64 << 40).encode(&mut out);
    assert_eq!(out, vec![7, 252, 0x70, 0x11, 1, 0, 253, 0, 0, 0, 0, 0, 1, 0, 0]);
    assert_eq!(<u32 as Response>::decode(&out, 0), Some((7, 1)));
    assert_eq!(<u32 as Response>::decode(&out, 1), Some((70000, 6)));
    assert_eq!(<u32 as Response>::decode(&out, 6), None);
    assert_eq!(<u64 as Response>::decode(&out, 6), Some((1 << 40, 15)));
    assert_eq!(<u64 as Response>::decode(&out, 15), None);
}

#[test]
fn bits_are_counted_and_found() {
    assert_eq!(high_bit(1), 0);
    assert_eq!(high_bit(0x8000_0000), 31);
    assert_eq!(high_bit(0x0001_2345), 16);
    assert_eq!(floor_power_of_2(0), 1);
    assert_eq!(floor_power_of_2(1), 1);
    assert_eq!(floor_power_of_2(858993459), 1 << 29);
    assert_eq!(floor_power_of_2(u32::MAX), 1 << 31);
    assert_eq!(count_bits(0), 0);
    assert_eq!(count_bits(0xa000_0010), 3);
    assert_eq!(count_bits(u32::MAX), 32);
    assert_eq!(span_mask(4, 8), 0xf0);
    assert_eq!(span_mask(0, 32), u32::MAX);
    assert_eq!(span_mask(31, 32), 1 << 31);
    assert_eq!(span_mask(5, 5), 0);
}

#[test]
fn a_plan_splits_into_phases() {
    assert_eq!(phase_shifts(0), Vec::<u32>::new());
    assert_eq!(phase_shifts(1), vec![0]);
    assert_eq!(phase_shifts((1 << 31) | (1 << 23)), vec![23, 31]);
    assert_eq!(phase_shifts(0b1010_0100), vec![2, 5, 7]);
    assert_eq!(phase_masks(0b1010_0100), vec![0b0001_1100, 0b0110_0000, 0xffff_ff80]);
    assert_eq!(phase_masks((1 << 31) | (1 << 23)), vec![0x7f80_0000, 0x8000_0000]);
}
