use bayer_dithering_matrix::matrix;

#[test]
fn test_1x1() {
    let m: [[u8; 1]; 1] = matrix();
    assert_eq!(m, [[0]]);
}

#[test]
fn test_2x2() {
    let m: [[u8; 2]; 2] = matrix();
    assert_eq!(m, [[0, 2], [3, 1]]);
}

#[test]
fn test_4x4() {
    let m: [[u8; 4]; 4] = matrix();
    assert_eq!(
        m,
        [[0, 8, 2, 10], [12, 4, 14, 6], [3, 11, 1, 9], [15, 7, 13, 5]],
    );
}

#[test]
fn test_8x8() {
    let m: [[u8; 8]; 8] = matrix();
    assert_eq!(
        m,
        [
            [0, 32, 8, 40, 2, 34, 10, 42],
            [48, 16, 56, 24, 50, 18, 58, 26],
            [12, 44, 4, 36, 14, 46, 6, 38],
            [60, 28, 52, 20, 62, 30, 54, 22],
            [3, 35, 11, 43, 1, 33, 9, 41],
            [51, 19, 59, 27, 49, 17, 57, 25],
            [15, 47, 7, 39, 13, 45, 5, 37],
            [63, 31, 55, 23, 61, 29, 53, 21]
        ],
    );
}
