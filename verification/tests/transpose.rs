use rand::rngs::StdRng;
use rand::{RngCore, SeedableRng};
use sandpile::array_utils::{
    transpose_block, transpose_diagonal_block, transpose_square_inplace, verify_length, BLOCK_SIZE,
};

const RNG_SEED: [usize; 5] = [1910, 11431, 4984, 14828, 12226];

fn random_array(length: usize) -> Vec<u32> {
    let mut result = Vec::with_capacity(length);
    let mut seed = [0u8; 32];
    for (i, word) in RNG_SEED.iter().enumerate() {
        seed[i * 4..i * 4 + 4].copy_from_slice(&(*word as u32).to_le_bytes());
    }
    let mut rng: StdRng = SeedableRng::from_seed(seed);
    for _ in 0..length {
        result.push(rng.next_u32())
    }
    result
}

#[test]
fn test_transpose() {
    for i in 0..5 {
        let side_length = i * BLOCK_SIZE;

        let len = side_length * side_length;

        let input = random_array(len);
        let mut transposed = input.clone();

        transpose_square_inplace(&mut transposed);

        for x in 0..side_length {
            for y in 0..side_length {
                assert_eq!(
                    input[x + y * side_length],
                    transposed[y + x * side_length],
                    "x = {}, y = {}",
                    x,
                    y
                );
            }
        }
    }
}

#[test]
fn transpose_twice_is_identity() {
    let input = random_array(24 * 24);
    let mut buffer = input.clone();
    transpose_square_inplace(&mut buffer);
    assert_ne!(buffer, input);
    transpose_square_inplace(&mut buffer);
    assert_eq!(buffer, input);
}

#[test]
fn transpose_moves_rows_to_columns() {
    let mut buffer: Vec<u32> = (0..64).collect();
    transpose_square_inplace(&mut buffer);
    assert_eq!(buffer[1], 8);
    assert_eq!(buffer[8], 1);
    assert_eq!(buffer[9], 9);
    assert_eq!(buffer[7 * 8 + 2], 2 * 8 + 7);
}

#[test]
fn verify_length_accepts_tiled_squares_only() {
    assert_eq!(verify_length(&[0u8; 0]), Some(0));
    assert_eq!(verify_length(&[0u8; 64]), Some(8));
    assert_eq!(verify_length(&vec![0u8; 256]), Some(16));
    assert_eq!(verify_length(&[0u8; 16]), None);
    assert_eq!(verify_length(&[0u8; 65]), None);
    assert_eq!(verify_length(&vec![0u8; 100]), None);
}

#[test]
fn tiles_are_exchanged_pairwise() {
    let side = 16;
    let input: Vec<u32> = (0..256).collect();
    let mut buffer = input.clone();
    transpose_block(&mut buffer, side, 1, 0);
    for y in 0..side {
        for x in 0..side {
            let off_diagonal = (x / 8 == 1 && y / 8 == 0) || (x / 8 == 0 && y / 8 == 1);
            let expected = if off_diagonal { input[y + x * side] } else { input[x + y * side] };
            assert_eq!(buffer[x + y * side], expected);
        }
    }
    let mut buffer = input.clone();
    transpose_diagonal_block(&mut buffer, side, 1);
    for y in 0..side {
        for x in 0..side {
            let expected = if x / 8 == 1 && y / 8 == 1 { input[y + x * side] } else { input[x + y * side] };
            assert_eq!(buffer[x + y * side], expected);
        }
    }
}
