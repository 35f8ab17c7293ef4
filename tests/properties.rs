use bayer_dithering_matrix::{compute_value_at_index, matrix};

#[test]
fn cell_values_exact() {
    assert_eq!(compute_value_at_index(0, 0, 0), 0);
    assert_eq!(compute_value_at_index(0, 1, 1), 2);
    assert_eq!(compute_value_at_index(1, 0, 3), 12);
    assert_eq!(compute_value_at_index(7, 7, 5), 21);
}

#[test]
fn square_16_is_permutation() {
    let m: [[u8; 16]; 16] = matrix();
    let mut seen = [false; 256];
    for row in m.iter() {
        for &v in row.iter() {
            assert!(!seen[v as usize]);
            seen[v as usize] = true;
        }
    }
    assert!(seen.iter().all(|&s| s));
    assert_eq!(m[0][1], 128);
    assert_eq!(m[15][15], 85);
}

#[test]
fn square_8_is_permutation_in_u16() {
    let m: [[u16; 8]; 8] = matrix();
    let mut values: Vec<u16> = m.iter().flat_map(|r| r.iter().copied()).collect();
    values.sort();
    let expected: Vec<u16> = (0..64).collect();
    assert_eq!(values, expected);
}

#[test]
fn repeated_generation_is_identical() {
    let a: [[u8; 8]; 8] = matrix();
    let b: [[u8; 8]; 8] = matrix();
    assert_eq!(a, b);
}

#[test]
fn quadrants_follow_recursion() {
    let small: [[u8; 4]; 4] = matrix();
    let big: [[u8; 8]; 8] = matrix();
    let offsets = [[0u8, 2], [3, 1]];
    for i in 0..8 {
        for j in 0..8 {
            assert_eq!(big[i][j], 4 * small[i % 4][j % 4] + offsets[i / 4][j / 4]);
        }
    }
}

#[test]
fn element_types_agree() {
    let a: [[u8; 4]; 4] = matrix();
    let b: [[u16; 4]; 4] = matrix();
    let c: [[u32; 4]; 4] = matrix();
    let d: [[u64; 4]; 4] = matrix();
    let e: [[u128; 4]; 4] = matrix();
    let f: [[usize; 4]; 4] = matrix();
    for i in 0..4 {
        for j in 0..4 {
            let v = a[i][j] as u128;
            assert_eq!(b[i][j] as u128, v);
            assert_eq!(c[i][j] as u128, v);
            assert_eq!(d[i][j] as u128, v);
            assert_eq!(e[i][j], v);
            assert_eq!(f[i][j] as u128, v);
        }
    }
}

#[test]
fn single_row_and_non_square() {
    let row: [[u8; 2]; 1] = matrix();
    assert_eq!(row, [[0, 2]]);
    let wide: [[u8; 4]; 2] = matrix();
    assert_eq!(wide, [[0, 8, 2, 10], [12, 4, 14, 6]]);
    let odd: [[u8; 3]; 3] = matrix();
    assert_eq!(odd, [[0, 8, 2], [12, 4, 14], [3, 11, 1]]);
}

#[test]
fn largest_square_for_u8_uses_full_range() {
    let m: [[u8; 16]; 16] = matrix();
    let max = m.iter().flat_map(|r| r.iter().copied()).max();
    assert_eq!(max, Some(u8::MAX));
}
