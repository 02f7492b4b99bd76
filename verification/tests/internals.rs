use m77rip::format::{heavy_code_floor_table, heavy_len, heavy_len_floor_table, HEAVY_LEN_OF};
use m77rip::heavy_optimal::heavy_literal_extras;
use m77rip::light_optimal::light_literal_extras;
use m77rip::live_set::{high_bit_index, low_bit_index, HeavyLiveSet};
use m77rip::match_find::{hash4, hash6, lcp_heavy, lcp_portable, LatestHashTable, HASH_SIZE};
use m77rip::primitives::{read_u16_le, read_u32_le, read_u64_le};
use m77rip::sais::suffix_array_with_rank;

#[test]
fn heavy_length_tables() {
    assert_eq!(heavy_len(1), 4);
    assert_eq!(heavy_len(29), 32);
    assert_eq!(heavy_len(30), 34);
    assert_eq!(heavy_len(63), 192);
    let floor = heavy_len_floor_table();
    let codes = heavy_code_floor_table();
    assert_eq!(floor[3], 0);
    assert_eq!(floor[4], 4);
    assert_eq!(floor[33], 32);
    assert_eq!(floor[35], 34);
    assert_eq!(floor[200], 192);
    assert_eq!(codes[33], 29);
    assert_eq!(codes[255], 63);
    for len in 0..256usize {
        let code = codes[len] as usize;
        assert_eq!(HEAVY_LEN_OF[code], floor[len]);
        assert!(floor[len] as usize <= len);
        if code + 1 < 64 {
            assert!(HEAVY_LEN_OF[code + 1] as usize > len);
        }
    }
}

#[test]
fn literal_extension_counts() {
    assert_eq!(light_literal_extras(6), 0);
    assert_eq!(light_literal_extras(7), 1);
    assert_eq!(light_literal_extras(261), 1);
    assert_eq!(light_literal_extras(262), 2);
    assert_eq!(heavy_literal_extras(62), 0);
    assert_eq!(heavy_literal_extras(63), 1);
    assert_eq!(heavy_literal_extras(318), 2);
}

#[test]
fn bit_indexes() {
    assert_eq!(high_bit_index(1), 0);
    assert_eq!(high_bit_index(0b1011_0000), 7);
    assert_eq!(high_bit_index(u64::MAX), 63);
    assert_eq!(low_bit_index(0b1011_0000), 4);
    assert_eq!(low_bit_index(1u64 << 63), 63);
}

#[test]
fn live_set_tracks_ranks() {
    let sa: Vec<i32> = (0..10_000).map(|i| (i * 7919 % 10_000) as i32).collect();
    let mut live = HeavyLiveSet::new();
    live.build(&sa, sa.len(), 0);
    assert_eq!(live.prev(5_000), None);
    assert_eq!(live.next(5_000), None);
    live.set(5_000);
    live.set(70);
    live.set(9_999);
    assert_eq!(live.prev(5_000), Some(70));
    assert_eq!(live.next(5_000), Some(9_999));
    assert_eq!(live.next(70), Some(5_000));
    assert_eq!(live.prev(70), None);
    assert_eq!(live.prev(9_999), Some(5_000));
    live.clear(5_000);
    assert_eq!(live.next(70), Some(9_999));
    assert_eq!(live.prev(9_999), Some(70));
    live.clear(70);
    assert_eq!(live.prev(9_999), None);
    live.clear(9_999);
    assert_eq!(live.next(0), None);
}

#[test]
fn live_set_build_keeps_positions_below_limit() {
    let text: Vec<u8> = (0..5_000u32).map(|i| (i * 31 % 251) as u8).collect();
    let mut sa = vec![0i32; text.len()];
    let mut rank = vec![0u32; text.len()];
    assert!(suffix_array_with_rank(&text, &mut sa, &mut rank));
    let mut live = HeavyLiveSet::new();
    live.build(&sa, sa.len(), 100);
    let mut live_ranks = Vec::new();
    let mut r = 0usize;
    loop {
        match live.next(r) {
            Some(n) => {
                live_ranks.push(n);
                r = n;
            },
            None => break,
        }
    }
    let mut expected: Vec<usize> = (0..sa.len()).filter(|&r| (sa[r] as u32) < 100).collect();
    if expected.first() == Some(&0) {
        expected.remove(0);
    }
    assert_eq!(live_ranks, expected);
}

#[test]
fn hashes_stay_in_table() {
    for v in [0u32, 1, 0xdead_beef, u32::MAX] {
        assert!(hash4(v) < HASH_SIZE);
    }
    for v in [0u64, 1, 0x0123_4567_89ab_cdef, u64::MAX] {
        assert!(hash6(v) < HASH_SIZE);
    }
    let mut table = LatestHashTable::new();
    table.insert(hash4(42), 1_000);
    assert_eq!(table.recover_pos(hash4(42), 1_050), 1_000);
}

#[test]
fn common_prefix_lengths() {
    let src = b"abcabcabcXabcabcabcY";
    assert_eq!(lcp_portable(src, 0, 3, 6), 6);
    assert_eq!(lcp_portable(src, 0, 10, 10), 9);
    assert_eq!(lcp_heavy(src, 0, 10, 10), 9);
    assert_eq!(lcp_heavy(src, 0, 1, 5), 0);
}

#[test]
fn little_endian_reads() {
    let bytes = [1u8, 2, 3, 4, 5, 6, 7, 8, 9];
    assert_eq!(read_u16_le(&bytes, 1), 0x0302);
    assert_eq!(read_u32_le(&bytes, 0), 0x0403_0201);
    assert_eq!(read_u64_le(&bytes, 1), 0x0908_0706_0504_0302);
}
