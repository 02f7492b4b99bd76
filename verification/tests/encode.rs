use m77rip::format::{HEAVY_SMALL_LIM, SMALL_LIM};
use m77rip::{
    compress, compress_bound, compress_bound_level, compress_into, compress_into_level,
    compress_level, decompress, decompress_into, decompressed_size, Error,
};

#[test]
fn compress_empty() {
    let compressed = compress(b"");
    assert_eq!(&compressed[..8], &0u64.to_le_bytes());
    assert_eq!(compressed.len(), 8);
}

#[test]
fn compress_small() {
    let data = b"hello";
    let compressed = compress(data);
    assert_eq!(&compressed[..8], &(data.len() as u64).to_le_bytes());
    assert_eq!(&compressed[8..], data);
}

#[test]
fn compress_small_max() {
    let data = vec![0xAB; SMALL_LIM];
    let compressed = compress(&data);
    assert_eq!(&compressed[..8], &(data.len() as u64).to_le_bytes());
    assert_eq!(&compressed[8..], &data[..]);
}

#[test]
fn compress_header_valid() {
    let data = vec![0x42; 200];
    let compressed = compress(&data);
    let size = u64::from_le_bytes(compressed[..8].try_into().unwrap()) as usize;
    assert_eq!(size, 200);
}

#[test]
fn compress_bound_covers() {
    let data = vec![0x42; 200];
    let compressed = compress(&data);
    assert!(compressed.len() <= compress_bound(data.len()));
}

#[test]
fn compress_bound_covers_level0() {
    let data = vec![0x42; 200];
    let compressed = compress_level(&data, 0).unwrap();
    assert!(compressed.len() <= compress_bound(data.len()));
}

#[test]
fn compress_bound_covers_level4() {
    let data = vec![0x42; HEAVY_SMALL_LIM];
    let compressed = compress_level(&data, 4).unwrap();
    assert!(compressed.len() <= compress_bound(data.len()));
    assert!(compressed.len() <= compress_bound_level(data.len(), 4).unwrap());
}

#[test]
fn invalid_level_is_rejected() {
    assert_eq!(
        compress_level(b"input", -2),
        Err(Error::InvalidLevel { level: -2 })
    );
    assert_eq!(
        compress_into_level(b"input", &mut [0; 64], 5),
        Err(Error::InvalidLevel { level: 5 })
    );
}

fn sample_text(n: usize) -> Vec<u8> {
    let sentence = b"the quick brown fox jumps over the lazy dog; misa77 level payload\n";
    let mut out = Vec::new();
    while out.len() < n {
        out.extend_from_slice(sentence);
    }
    out.truncate(n);
    out
}

fn sample_mixed(n: usize) -> Vec<u8> {
    let mut out = Vec::with_capacity(n);
    let mut state = 0x1234_5678u32;
    while out.len() < n {
        state = state.wrapping_mul(1_103_515_245).wrapping_add(12_345);
        if state % 5 == 0 && out.len() > 200 {
            let back = (state as usize >> 8) % 90 + 34;
            let len = (state as usize >> 20) % 40 + 4;
            for _ in 0..len {
                let b = out[out.len() - back];
                out.push(b);
            }
        } else {
            out.push((state >> 16) as u8);
        }
    }
    out.truncate(n);
    out
}

#[test]
fn every_level_roundtrips() {
    let inputs = vec![
        Vec::new(),
        b"a".to_vec(),
        vec![7u8; 33],
        vec![7u8; 64],
        vec![7u8; 65],
        sample_text(200),
        sample_text(5_000),
        sample_mixed(20_000),
        (0..=255u8).cycle().take(3_000).collect::<Vec<u8>>(),
    ];
    for data in &inputs {
        for level in [-1i8, 0, 1, 2, 3, 4] {
            let compressed = compress_level(data, level).unwrap();
            assert!(compressed.len() <= compress_bound_level(data.len(), level).unwrap());
            assert!(compressed.len() <= compress_bound(data.len()));
            assert_eq!(decompressed_size(&compressed), Some(data.len() as u64));
            let decompressed = decompress(&compressed, data.len()).unwrap();
            assert_eq!(&decompressed, data, "level {level}, {} bytes", data.len());
        }
    }
}

#[test]
fn optimal_levels_roundtrip_across_blocks() {
    let mut data = sample_text(450_000);
    let mixed = sample_mixed(50_000);
    data.extend_from_slice(&mixed);
    for level in [3i8, 4] {
        let compressed = compress_level(&data, level).unwrap();
        assert!(compressed.len() < data.len() / 4);
        let decompressed = decompress(&compressed, data.len()).unwrap();
        assert_eq!(decompressed, data, "level {level}");
    }
}

#[test]
fn heavy_level_sets_the_heavy_flag() {
    let data = sample_text(1_000);
    let light = compress_level(&data, 3).unwrap();
    let heavy = compress_level(&data, 4).unwrap();
    assert_eq!(light[7], 0);
    assert_eq!(heavy[7] & 1, 1);
    let small = compress_level(b"tiny", 4).unwrap();
    assert_eq!(small[7], 1);
    assert_eq!(&small[8..], b"tiny");
}

#[test]
fn compress_bound_values() {
    assert_eq!(compress_bound_level(10, 1), Ok(18));
    assert_eq!(compress_bound_level(100, 2), Ok(16 + 100 + 16));
    assert_eq!(compress_bound_level(1000, 0), Ok(16 + 1000 + 3 + 16));
    assert_eq!(compress_bound_level(100, 4), Ok(16 + 100 + 3 + 64));
    assert_eq!(compress_bound(100), 183);
    assert_eq!(compress_bound(10), 90);
    assert_eq!(compress_bound(usize::MAX), usize::MAX);
    assert_eq!(compress_bound_level(5, -2), Err(Error::InvalidLevel { level: -2 }));
    assert_eq!(compress_bound_level(5, 5), Err(Error::InvalidLevel { level: 5 }));
}

#[test]
fn compress_into_reports_small_buffers() {
    let data = sample_text(300);
    let mut dst = vec![0x5Au8; 100];
    assert_eq!(
        compress_into(&data, &mut dst),
        Err(Error::OutputTooSmall { need: 16 + 300 + 1 + 16, have: 100 })
    );
    assert!(dst.iter().all(|&b| b == 0x5A));
    assert_eq!(
        compress_into_level(&data, &mut dst, 4),
        Err(Error::OutputTooSmall { need: 16 + 300 + 9 + 64, have: 100 })
    );
    assert!(dst.iter().all(|&b| b == 0x5A));
}

#[test]
fn compress_into_roundtrips() {
    let data = sample_mixed(4_000);
    for level in [-1i8, 0, 1, 2, 3, 4] {
        let mut dst = vec![0u8; compress_bound(data.len())];
        let written = compress_into_level(&data, &mut dst, level).unwrap();
        let mut out = vec![0u8; data.len()];
        let n = decompress_into(&dst[..written], &mut out).unwrap();
        assert_eq!(n, data.len());
        assert_eq!(out, data);
    }
    let mut dst = vec![0u8; compress_bound(data.len())];
    let written = compress_into(&data, &mut dst).unwrap();
    assert_eq!(&dst[..written], &compress(&data)[..]);
}

#[test]
fn compressible_input_shrinks() {
    let data = vec![0u8; 30_000];
    for level in [-1i8, 0, 1, 2, 3, 4] {
        let compressed = compress_level(&data, level).unwrap();
        assert!(compressed.len() < 4_000, "level {level}: {}", compressed.len());
    }
}

#[test]
fn readme_compress_example() {
    let input = b"the quick brown fox jumps over the lazy dog, again and again!";
    let compressed = compress(input);
    let decompressed = decompress(&compressed, input.len()).unwrap();
    assert_eq!(&decompressed, input);
}

#[test]
fn readme_decompress_into_example() {
    let compressed = compress(b"hello world, hello world!");
    let size = decompressed_size(&compressed).unwrap() as usize;
    let mut buf = vec![0u8; size];
    let written = decompress_into(&compressed, &mut buf).unwrap();
    assert_eq!(written, size);
    assert_eq!(&buf, b"hello world, hello world!");
}

#[test]
fn heavy_flag_marks_rare_long_matches() {
    let zeros = vec![0u8; 30_000];
    let long_only = compress_level(&zeros, 4).unwrap();
    assert_eq!(long_only[7], 1);
    let mut data = Vec::new();
    let mut state = 7u32;
    while data.len() < 20_000 {
        state = state.wrapping_mul(1_103_515_245).wrapping_add(12_345);
        let word = [(state >> 8) as u8, (state >> 16) as u8, (state >> 24) as u8];
        data.extend_from_slice(&word);
        if data.len() > 200 && state % 3 == 0 {
            let start = data.len() - 150;
            let copy: Vec<u8> = data[start..start + 6].to_vec();
            data.extend_from_slice(&copy);
        }
    }
    let short_matches = compress_level(&data, 4).unwrap();
    assert_eq!(short_matches[7], 3);
    assert_eq!(decompress(&short_matches, data.len()).unwrap(), data);
}

fn lcg_bytes(n: usize, seed: u64) -> Vec<u8> {
    let mut x = seed;
    (0..n)
        .map(|_| {
            x = x.wrapping_mul(6364136223846793005).wrapping_add(1442695040888963407);
            (x >> 56) as u8
        })
        .collect()
}

#[test]
fn level3_single_block_never_longer_than_stored() {
    let mut inputs = vec![lcg_bytes(33, 1), lcg_bytes(1000, 2), lcg_bytes(70000, 3)];
    // Long literal runs broken by short repeats: matches that save little.
    let mut mixed = lcg_bytes(4000, 4);
    for i in (300..4000).step_by(300) {
        let (a, b) = mixed.split_at_mut(i);
        b[..4].copy_from_slice(&a[i - 40..i - 36]);
    }
    inputs.push(mixed);
    inputs.push(vec![7u8; 5000]);
    for input in inputs {
        let out = m77rip::compress_level(&input, 3).unwrap();
        assert!(out.len() <= 16 + input.len(), "{} > 16 + {}", out.len(), input.len());
        assert_eq!(m77rip::decompress(&out, input.len()).unwrap(), input);
    }
}

#[test]
fn level4_single_block_never_longer_than_stored() {
    let mut mixed = lcg_bytes(6000, 9);
    for i in (400..6000).step_by(400) {
        let (a, b) = mixed.split_at_mut(i);
        b[..5].copy_from_slice(&a[i - 50..i - 45]);
    }
    for input in [lcg_bytes(65, 5), lcg_bytes(3000, 6), mixed, vec![3u8; 9000]] {
        let out = m77rip::compress_level(&input, 4).unwrap();
        assert!(out.len() <= 16 + input.len(), "{} > 16 + {}", out.len(), input.len());
        assert_eq!(out[7] & 1, 1);
        assert!(u64::from_le_bytes(out[8..16].try_into().unwrap()) >= 64);
        assert_eq!(m77rip::decompress(&out, input.len()).unwrap(), input);
    }
}

#[test]
fn every_level_writes_one_stream_whatever_the_buffer() {
    let mut data = lcg_bytes(20000, 11);
    for i in (500..20000).step_by(700) {
        data.copy_within(i - 300..i - 250, i);
    }
    assert_eq!(compress(&data), compress_level(&data, 1).unwrap());
    for level in -1i8..=4 {
        let expected = compress_level(&data, level).unwrap();
        let bound = compress_bound_level(data.len(), level).unwrap();
        let mut dst = vec![0xAAu8; bound + 100];
        let n = compress_into_level(&data, &mut dst, level).unwrap();
        assert_eq!(&dst[..n], &expected[..], "level {}", level);
    }
    let bound = compress_bound_level(data.len(), 1).unwrap();
    let mut dst = vec![0x55u8; bound];
    let n = compress_into(&data, &mut dst).unwrap();
    assert_eq!(&dst[..n], &compress(&data)[..]);
}

#[test]
fn level4_small_input_exact_stream() {
    let mut src = vec![0u8; 110];
    for (i, b) in src.iter_mut().enumerate().take(33) {
        *b = i as u8;
    }
    src[33..38].copy_from_slice(&[0, 1, 2, 3, 4]);
    for b in src[38..].iter_mut() {
        *b = 0xFF;
    }
    let out = compress_level(&src, 4).unwrap();
    let mut expected = vec![110u8, 0, 0, 0, 0, 0, 0, 3, 72, 0, 0, 0, 0, 0, 0, 0, 0x00, 0x00, 0x20, 0x84];
    expected.extend_from_slice(&src[0..33]);
    expected.extend_from_slice(&src[38..110]);
    assert_eq!(out, expected);
    let mut dst = vec![0u8; compress_bound_level(src.len(), 4).unwrap() + 7];
    let n = compress_into_level(&src, &mut dst, 4).unwrap();
    assert_eq!(&dst[..n], &expected[..]);
}
