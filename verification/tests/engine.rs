use sandpile::common::{ComputeError, FractalResult, InitialCell};
use sandpile::compute::{compute_fractal_data, is_admissible};
use sandpile::sweep::{process_row, sweep};
use sandpile::recentre::{copy_data, maybe_reallocate, next_multiple};

fn cell(x: usize, y: usize, value: u32) -> InitialCell {
    InitialCell { x, y, value }
}

fn run(cells: &[InitialCell]) -> FractalResult {
    assert!(is_admissible(cells));
    compute_fractal_data(cells).unwrap()
}

fn sum(data: &[u8]) -> u64 {
    data.iter().map(|v| *v as u64).sum()
}

fn nonzero_box(r: &FractalResult) -> (usize, usize, usize, usize) {
    let s = r.side_length;
    let mut b = (s, 0, s, 0);
    for y in 0..s {
        for x in 0..s {
            if r.sand_data[y * s + x] != 0 {
                b = (b.0.min(x), b.1.max(x), b.2.min(y), b.3.max(y));
            }
        }
    }
    b
}

#[test]
fn trivial_pile_is_centred() {
    let r = run(&[cell(0, 0, 3)]);
    assert_eq!(r.side_length, 120);
    assert_eq!(r.sand_data.len(), 120 * 120);
    assert_eq!(r.count_data.len(), 120 * 120);
    for (i, v) in r.sand_data.iter().enumerate() {
        assert_eq!(*v, if i == 60 * 120 + 60 { 3 } else { 0 });
    }
    assert!(r.count_data.iter().all(|c| *c == 0));
    assert_eq!(r.total_redistributions, 0);
    assert_eq!(r.total_iterations, 1);
    assert_eq!(r.initial_configuration, vec![cell(0, 0, 3)]);
}

#[test]
fn single_topple() {
    let r = run(&[cell(0, 0, 4)]);
    let s = r.side_length;
    assert_eq!(s, 120);
    let c = 60 * s + 60;
    for (i, v) in r.sand_data.iter().enumerate() {
        let expected = if i == c - 1 || i == c + 1 || i == c - s || i == c + s { 1 } else { 0 };
        assert_eq!(*v, expected);
    }
    assert_eq!(r.total_redistributions, 1);
    assert_eq!(r.total_iterations, 2);
    assert_eq!(r.count_data[c], 1);
    assert_eq!(r.count_data.iter().map(|v| *v as u64).sum::<u64>(), 1);
}

#[test]
fn double_topple() {
    let r = run(&[cell(0, 0, 8)]);
    let s = r.side_length;
    let c = 60 * s + 60;
    for (i, v) in r.sand_data.iter().enumerate() {
        let expected = if i == c - 1 || i == c + 1 || i == c - s || i == c + s { 2 } else { 0 };
        assert_eq!(*v, expected);
    }
    assert_eq!(r.total_iterations, 2);
    assert_eq!(r.total_redistributions, 1);
    assert_eq!(r.count_data[c], 1);
}

#[test]
fn two_interacting_seeds_commute() {
    let a = run(&[cell(5, 5, 10), cell(6, 5, 10)]);
    let b = run(&[cell(6, 5, 10), cell(5, 5, 10)]);
    assert_eq!(a.sand_data, b.sand_data);
    assert_eq!(a.count_data, b.count_data);
    assert_eq!(a.side_length, b.side_length);
    assert_eq!(a.total_redistributions, b.total_redistributions);
    assert_eq!(a.total_iterations, b.total_iterations);
    assert_eq!(sum(&a.sand_data), 20);
    assert!(a.sand_data.iter().all(|v| *v <= 3));
}

#[test]
fn stable_output_stays_put() {
    let r = run(&[cell(0, 0, 200)]);
    let s = r.side_length;
    let read: Vec<u32> = r.sand_data.iter().map(|v| *v as u32).collect();
    let mut write = read.clone();
    let mut counting = vec![0u32; s * s];
    let hits = sweep(&read, &mut write, &mut counting, s);
    assert_eq!(hits, 0);
    assert_eq!(write, read);
    assert!(counting.iter().all(|c| *c == 0));
}

#[test]
fn small_pile_keeps_its_grains() {
    let r = run(&[cell(0, 0, 200)]);
    assert_eq!(sum(&r.sand_data), 200);
    assert!(r.sand_data.iter().all(|v| *v <= 3));
    let (minx, maxx, miny, maxy) = nonzero_box(&r);
    assert!(minx >= 1 && miny >= 1);
    assert!(maxx + 1 < r.side_length && maxy + 1 < r.side_length);
}

#[test]
fn kernel_topples_the_middle_row() {
    let input: Vec<u32> = vec![0, 0, 0, 0, 0, 0, 9, 4, 3, 0, 0, 0, 0, 0, 0];
    let mut output = input.clone();
    let mut counting = vec![0u32; 15];
    let hits = process_row(&input, &mut output, &mut counting, 5);
    assert_eq!(hits, 2);
    assert_eq!(output, vec![0, 2, 1, 0, 0, 2, 2, 2, 4, 0, 0, 2, 1, 0, 0]);
    assert_eq!(counting, vec![0, 0, 0, 0, 0, 0, 1, 1, 0, 0, 0, 0, 0, 0, 0]);
}

#[test]
fn kernel_leaves_the_rim_alone() {
    let input: Vec<u32> = vec![7, 7, 7, 7, 0, 7, 7, 7, 7];
    let mut output = input.clone();
    let mut counting = vec![0u32; 9];
    let hits = process_row(&input, &mut output, &mut counting, 3);
    assert_eq!(hits, 0);
    assert_eq!(output, input);
    assert!(counting.iter().all(|c| *c == 0));
}

#[test]
fn sweep_topples_every_inner_cell_once() {
    let s = 6;
    let mut read = vec![0u32; s * s];
    for y in 1..5 {
        for x in 1..5 {
            read[y * s + x] = 4;
        }
    }
    read[0] = 9;
    let mut write = read.clone();
    let mut counting = vec![0u32; s * s];
    let hits = sweep(&read, &mut write, &mut counting, s);
    assert_eq!(hits, 16);
    assert_eq!(write.iter().map(|v| *v as u64).sum::<u64>(), 16 * 4 + 9);
    assert_eq!(write[0], 9);
    assert_eq!(write[1], 1);
    assert_eq!(write[s + 1], 2);
    assert_eq!(write[2 * s + 2], 4);
    assert_eq!(write[2 * s], 1);
    for y in 0..s {
        for x in 0..s {
            let inner = (1..5).contains(&x) && (1..5).contains(&y);
            assert_eq!(counting[y * s + x], if inner { 1 } else { 0 });
        }
    }
}

#[test]
fn reallocate_keeps_a_grid_with_room() {
    let s = 9;
    let mut main = vec![0u32; s * s];
    main[4 * s + 4] = 7;
    main[0] = 2;
    let mut secondary = vec![0u32; s * s];
    let mut counting = vec![5u32; s * s];
    let mut side = s;
    let next = maybe_reallocate(&mut main, &mut secondary, &mut counting, &mut side);
    assert_eq!(next, Some(2));
    assert_eq!(side, 9);
    assert_eq!(secondary, main);
    assert_eq!(main[4 * s + 4], 7);
    assert_eq!(main[0], 2);
    assert!(counting.iter().all(|c| *c == 5));
}

#[test]
fn reallocate_centres_the_active_box() {
    let s = 7;
    let mut main = vec![0u32; s * s];
    main[5 * s + 5] = 10;
    main[5 * s + 6] = 11;
    main[0] = 3;
    let mut counting = vec![0u32; s * s];
    counting[5 * s + 5] = 8;
    let mut secondary = main.clone();
    let mut side = s;
    let next = maybe_reallocate(&mut main, &mut secondary, &mut counting, &mut side);
    assert_eq!(side, 120);
    assert_eq!(next, Some((120 - 7) / 4));
    assert_eq!(main.len(), 120 * 120);
    assert_eq!(secondary, main);
    assert_eq!(main[60 * 120 + 59], 10);
    assert_eq!(main[60 * 120 + 60], 11);
    assert_eq!(main.iter().map(|v| *v as u64).sum::<u64>(), 21);
    assert_eq!(counting[60 * 120 + 59], 8);
    assert_eq!(counting.iter().map(|v| *v as u64).sum::<u64>(), 8);
}

#[test]
fn reallocate_grows_by_the_standard_increase() {
    let s = 126;
    let mut main = vec![0u32; s * s];
    main[s + 1] = 4;
    let mut secondary = main.clone();
    let mut counting = vec![0u32; s * s];
    let mut side = s;
    let next = maybe_reallocate(&mut main, &mut secondary, &mut counting, &mut side);
    assert_eq!(side, 138);
    assert_eq!(next, Some(3));
    assert_eq!(main[69 * 138 + 69], 4);
}

#[test]
fn far_cell_is_refused() {
    let cells = [cell(0, 40000, 5)];
    assert_eq!(compute_fractal_data(&cells).err(), Some(ComputeError::GridTooLarge));
    let cells = [cell(usize::MAX, 0, 5)];
    assert_eq!(compute_fractal_data(&cells).err(), Some(ComputeError::GridTooLarge));
}

#[test]
fn admissible_cells() {
    assert!(!is_admissible(&[]));
    assert!(is_admissible(&[cell(0, 0, u32::MAX)]));
    assert!(!is_admissible(&[cell(0, 0, u32::MAX), cell(1, 0, 1)]));
    assert!(is_admissible(&[cell(0, 0, 1 << 31), cell(1, 0, (1 << 31) - 1)]));
}

#[test]
fn next_multiple_rounds_up() {
    assert_eq!(next_multiple(120, 6), 120);
    assert_eq!(next_multiple(121, 6), 126);
    assert_eq!(next_multiple(125, 6), 126);
    assert_eq!(next_multiple(0, 6), 0);
    assert_eq!(next_multiple(7, 1), 7);
}

#[test]
fn copy_data_copies_everything() {
    let src: Vec<u32> = (0..37).collect();
    let mut dst = vec![0u32; 37];
    copy_data(&src, &mut dst);
    assert_eq!(dst, src);
}

#[test]
fn counts_never_fall() {
    let s = 6;
    let mut read = vec![0u32; s * s];
    read[2 * s + 2] = 16;
    let mut write = read.clone();
    let mut counting = vec![0u32; s * s];
    let mut earlier = counting.clone();
    for _ in 0..3 {
        sweep(&read, &mut write, &mut counting, s);
        assert!(counting.iter().zip(earlier.iter()).all(|(now, then)| now >= then));
        earlier = counting.clone();
        read = write.clone();
    }
    assert_eq!(counting[2 * s + 2], 2);
}

#[test]
fn classic_fractal_seed() {
    let r = run(&[cell(0, 0, 1 << 16)]);
    let s = r.side_length;
    let (minx, maxx, miny, maxy) = nonzero_box(&r);
    assert_eq!(sum(&r.sand_data), 65536);
    assert!(r.sand_data.iter().all(|v| *v <= 3));
    assert_eq!(maxx - minx, maxy - miny);
    let n = maxx - minx + 1;
    let at = |x: usize, y: usize| r.sand_data[(miny + y) * s + minx + x];
    for y in 0..n {
        for x in 0..n {
            assert_eq!(at(x, y), at(n - 1 - y, x));
            assert_eq!(at(x, y), at(n - 1 - x, n - 1 - y));
            assert_eq!(at(x, y), at(y, n - 1 - x));
            assert_eq!(at(x, y), at(y, x));
        }
    }
}

#[test]
fn recentering_keeps_padding() {
    let r = run(&[cell(0, 0, 1 << 16)]);
    let (minx, maxx, miny, maxy) = nonzero_box(&r);
    assert!(r.side_length > 120);
    assert_eq!(r.side_length % 6, 0);
    assert!(minx >= 1 && miny >= 1);
    assert!(maxx + 1 < r.side_length && maxy + 1 < r.side_length);
    for i in 0..r.side_length {
        assert_eq!(r.sand_data[i], 0);
        assert_eq!(r.sand_data[i * r.side_length], 0);
        assert_eq!(r.sand_data[i * r.side_length + r.side_length - 1], 0);
        assert_eq!(r.sand_data[(r.side_length - 1) * r.side_length + i], 0);
    }
}

#[test]
fn growth_drops_what_lies_outside_the_active_box() {
    let r = run(&[cell(0, 0, 3), cell(10, 10, 4)]);
    assert_eq!(r.side_length, 120);
    assert_eq!(sum(&r.sand_data), 4);
    assert_eq!(r.total_redistributions, 1);
}

#[test]
fn runs_are_repeatable() {
    let cells = [cell(3, 1, 5000), cell(0, 2, 777)];
    let a = run(&cells);
    let b = run(&cells);
    assert_eq!(a.sand_data, b.sand_data);
    assert_eq!(a.count_data, b.count_data);
    assert_eq!(a.side_length, b.side_length);
    assert_eq!(a.total_redistributions, b.total_redistributions);
    assert_eq!(a.total_iterations, b.total_iterations);
    assert!(a.sand_data.iter().all(|v| *v <= 3));
    assert!(sum(&a.sand_data) <= 5777);
}
