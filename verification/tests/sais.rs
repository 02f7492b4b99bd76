use m77rip::sais::suffix_array_with_rank;

fn suffix_array(input: &[u8]) -> Vec<i32> {
    let mut sa = vec![0; input.len()];
    let mut rank = vec![0u32; input.len()];
    assert!(suffix_array_with_rank(input, &mut sa, &mut rank));
    for (i, &pos) in sa.iter().enumerate() {
        assert_eq!(rank[pos as usize], i as u32);
    }
    sa
}

fn naive_suffix_array(input: &[u8]) -> Vec<i32> {
    let mut sa: Vec<_> = (0..input.len()).collect();
    sa.sort_by(|&a, &b| input[a..].cmp(&input[b..]));
    sa.into_iter().map(|pos| pos as i32).collect()
}

#[test]
fn sorts_banana() {
    assert_eq!(suffix_array(b"banana"), vec![5, 3, 1, 0, 4, 2]);
}

#[test]
fn matches_naive_for_small_patterns() {
    let cases: &[&[u8]] = &[
        b"",
        b"a",
        b"aaaaaa",
        b"abababab",
        b"mississippi",
        b"the quick brown fox jumps over the lazy dog",
        &[3, 1, 4, 1, 5, 9, 2, 6, 5],
    ];
    for &case in cases {
        assert_eq!(suffix_array(case), naive_suffix_array(case), "{case:?}");
    }
}
