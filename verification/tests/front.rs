use sandpile::bounds::{first_hot_line, last_hot_line, line_has_hot};
use sandpile::common::{same_configuration, InitialCell};
use sandpile::compute::{largest_coordinate, narrow, seed, Engine, Progress};
use sandpile::gui::{
    keep_digits, parse_count, single_seed, Action, Event, Front, SliderColor, State,
};
use sandpile::limits::{BAND_H, MARGIN, MAX_ITERATIONS, MAX_SIDE, TOPPLE_AMOUNT};
use sandpile::recentre::{copy_chunk, copy_region, Shift, MIN_SIZE, REQUIRED_SIZE_MULTIPLE, STANDARD_INCREASE};
use sandpile::render::{paint, ColorChannel, RenderColor, RenderParams};

fn cell(x: usize, y: usize, value: u32) -> InitialCell {
    InitialCell { x, y, value }
}

#[test]
fn constants() {
    assert_eq!(TOPPLE_AMOUNT, 4);
    assert_eq!(MARGIN, 1);
    assert_eq!(BAND_H, 3);
    assert_eq!(MIN_SIZE, 120);
    assert_eq!(STANDARD_INCREASE, 8);
    assert_eq!(REQUIRED_SIZE_MULTIPLE, 2 * BAND_H);
    assert_eq!(MAX_SIDE % REQUIRED_SIZE_MULTIPLE, 0);
    assert_eq!(MAX_ITERATIONS as u64, u32::MAX as u64);
}

#[test]
fn default_palette() {
    let p = RenderParams::default();
    assert_eq!(p.color0, RenderColor { red: 0, green: 0, blue: 0 });
    assert_eq!(p.color1, RenderColor { red: 64, green: 64, blue: 255 });
    assert_eq!(p.color2, RenderColor { red: 255, green: 255, blue: 64 });
    assert_eq!(p.color3, RenderColor { red: 255, green: 64, blue: 64 });
    assert_eq!(p.color(SliderColor::Color2), p.color2);
    assert_eq!(p.color_of(0), p.color0);
    assert_eq!(p.color_of(1), p.color1);
    assert_eq!(p.color_of(2), p.color2);
    assert_eq!(p.color_of(3), p.color3);
    assert_eq!(p.color_of(200), p.color3);
}

#[test]
fn channels_are_set_one_at_a_time() {
    let mut c = RenderColor { red: 1, green: 2, blue: 3 };
    c.set(ColorChannel::Green, 9);
    assert_eq!(c, RenderColor { red: 1, green: 9, blue: 3 });
    assert_eq!(c.get(ColorChannel::Red), 1);
    assert_eq!(c.get(ColorChannel::Green), 9);
    assert_eq!(c.get(ColorChannel::Blue), 3);
    let mut p = RenderParams::default();
    p.set_channel(SliderColor::Color1, ColorChannel::Blue, 7);
    assert_eq!(p.color1, RenderColor { red: 64, green: 64, blue: 7 });
    assert_eq!(p.color0, RenderParams::default().color0);
    assert_eq!(p.color2, RenderParams::default().color2);
    assert_eq!(p.color3, RenderParams::default().color3);
}

#[test]
fn paint_maps_loads_to_colours() {
    let pixels = paint(&RenderParams::default(), &[0, 1, 2, 3, 4]);
    assert_eq!(pixels, vec![0, 0, 0, 64, 64, 255, 255, 255, 64, 255, 64, 64, 255, 64, 64]);
    assert_eq!(paint(&RenderParams::default(), &[]), Vec::<u8>::new());
}

#[test]
fn front_end_follows_its_events() {
    let mut f = Front { state: State::default(), has_data: false, render_params: RenderParams::default() };
    assert_eq!(f.state, State::Idle);
    assert_eq!(f.update(Event::InitialSizeChanged), Action::Nothing);
    assert_eq!(f.update(Event::ColorChanged(SliderColor::Color0, ColorChannel::Red, 5)), Action::Nothing);
    assert_eq!(f.render_params.color0.red, 5);
    assert_eq!(f.update(Event::BeginComputingFractal), Action::Compute);
    assert_eq!(f.state, State::Computing);
    assert_eq!(f.update(Event::FractalComputed), Action::Render);
    assert_eq!(f.state, State::Rendering);
    assert!(f.has_data);
    assert_eq!(f.update(Event::ColorChanged(SliderColor::Color3, ColorChannel::Blue, 0)), Action::Nothing);
    assert_eq!(f.update(Event::FractalRendered), Action::Nothing);
    assert_eq!(f.state, State::Idle);
    assert_eq!(f.update(Event::ColorChanged(SliderColor::Color3, ColorChannel::Blue, 1)), Action::Render);
    assert_eq!(f.render_params.color3.blue, 1);
    assert_eq!(f.state, State::Idle);
}

#[test]
fn seed_text() {
    assert_eq!(keep_digits(b"1a2 b3"), b"123".to_vec());
    assert_eq!(keep_digits(b""), Vec::<u8>::new());
    assert_eq!(keep_digits(b"/0:9"), b"09".to_vec());
    assert_eq!(parse_count(b"65536"), Some(65536));
    assert_eq!(parse_count(b"0"), Some(0));
    assert_eq!(parse_count(b"007"), Some(7));
    assert_eq!(parse_count(b"4294967295"), Some(u32::MAX));
    assert_eq!(parse_count(b"4294967296"), None);
    assert_eq!(parse_count(b"99999999999999999999999"), None);
    assert_eq!(parse_count(b""), None);
    assert_eq!(parse_count(b"12x"), None);
    assert_eq!(single_seed(9), vec![cell(0, 0, 9)]);
}

#[test]
fn configurations_compare_cell_by_cell() {
    let a = [cell(0, 0, 1), cell(1, 2, 3)];
    assert!(same_configuration(&a, &[cell(0, 0, 1), cell(1, 2, 3)]));
    assert!(!same_configuration(&a, &[cell(1, 2, 3), cell(0, 0, 1)]));
    assert!(!same_configuration(&a, &[cell(0, 0, 1)]));
    assert!(!same_configuration(&a, &[cell(0, 0, 1), cell(1, 2, 4)]));
    assert!(same_configuration(&[], &[]));
}

#[test]
fn seeding_sets_each_cell() {
    let cells = [cell(2, 1, 7), cell(0, 3, 9), cell(2, 1, 8)];
    assert_eq!(largest_coordinate(&cells), 3);
    assert_eq!(largest_coordinate(&[]), 0);
    let grid = seed(&cells, 4);
    let mut expected = vec![0u32; 16];
    expected[1 * 4 + 2] = 8;
    expected[3 * 4] = 9;
    assert_eq!(grid, expected);
    assert_eq!(narrow(&vec![0, 3, 255, 256, 259]), vec![0, 3, 255, 0, 3]);
}

#[test]
fn scans_find_the_box() {
    let s = 5;
    let mut g = vec![0u32; s * s];
    g[1 * s + 3] = 4;
    g[3 * s + 2] = 9;
    g[4 * s + 4] = 3;
    assert_eq!(first_hot_line(&g, s, true), 1);
    assert_eq!(last_hot_line(&g, s, true), 3);
    assert_eq!(first_hot_line(&g, s, false), 2);
    assert_eq!(last_hot_line(&g, s, false), 3);
    assert!(line_has_hot(&g, s, true, 1));
    assert!(!line_has_hot(&g, s, true, 4));
    assert!(line_has_hot(&g, s, false, 2));
    assert!(!line_has_hot(&g, s, false, 4));
    let none = vec![3u32; s * s];
    assert_eq!(first_hot_line(&none, s, true), 0);
    assert_eq!(last_hot_line(&none, s, false), 0);
}

#[test]
fn regions_are_copied_cell_by_cell() {
    let src: Vec<u32> = (0..16).collect();
    let mut dst = vec![99u32; 36];
    let s = Shift { side: 4, new_side: 6, minx: 1, miny: 2, size_x: 2, size_y: 2, new_x: 3, new_y: 1 };
    copy_region(&src, &mut dst, s);
    let mut expected = vec![99u32; 36];
    expected[1 * 6 + 3] = 9;
    expected[1 * 6 + 4] = 10;
    expected[2 * 6 + 3] = 13;
    expected[2 * 6 + 4] = 14;
    assert_eq!(dst, expected);
    let mut out = [0u8; 3];
    copy_chunk(&[4u8, 5, 6], &mut out);
    assert_eq!(out, [4, 5, 6]);
}

#[test]
fn engine_steps_to_the_fixed_point() {
    let mut engine = Engine::start(&[cell(0, 0, 16)]).unwrap();
    assert_eq!(engine.side_length, 120);
    assert_eq!(engine.next_check, 29);
    assert_eq!(engine.total_iterations, 0);
    assert_eq!(engine.read_array, engine.write_array);
    let mut counts = engine.counting_array.clone();
    let mut steps = 0;
    loop {
        let (next, progress) = engine.advance();
        engine = next;
        steps += 1;
        assert_eq!(engine.total_iterations, steps);
        assert!(engine.counting_array.iter().zip(counts.iter()).all(|(now, then)| now >= then));
        counts = engine.counting_array.clone();
        match progress {
            Progress::Running => assert_eq!(engine.read_array, engine.write_array),
            Progress::Settled => break,
            Progress::Failed(e) => panic!("{:?}", e),
        }
    }
    assert_eq!(engine.write_array.iter().map(|v| *v as u64).sum::<u64>(), 16);
    assert!(engine.write_array.iter().all(|v| *v <= 3));
    assert_eq!(engine.write_array[60 * 120 + 60], 0);
    assert_eq!(engine.counting_array[60 * 120 + 60], 2);
    assert_eq!(engine.total_redistributions, 6);
    assert_eq!(steps, 4);
}
