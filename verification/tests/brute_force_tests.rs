use asciigen::ascii_generator::{AsciiGenerator, CoverageSample};
use asciigen::brute_force::{BruteForceGenerator, PositionReport};
use asciigen::genetic_algorithm::{Individual, ALLOWED_CHARS};
use asciigen::raster::GrayImage;
use asciigen::ratio::Ratio;

fn test_coverage(char_width: u32, char_height: u32) -> Vec<Vec<CoverageSample>> {
    let mut coverage = Vec::new();
    for code in 0x20u32..=0x7F {
        let mut samples = Vec::new();
        for y in 0..char_height {
            for x in 0..char_width {
                let lit = match code {
                    0x20 => false,
                    0x23 => true,
                    _ => (code * 7 + x * 3 + y * 5) % 4 == 0,
                };
                if lit {
                    samples.push(CoverageSample { x, y, intensity: 255 });
                }
            }
        }
        coverage.push(samples);
    }
    coverage
}

fn create_test_ascii_generator() -> AsciiGenerator {
    AsciiGenerator::new(8, 15, &test_coverage(8, 15))
}

fn create_test_target_image() -> GrayImage {
    GrayImage::new(20, 20)
}

fn value(r: Ratio) -> f64 {
    r.num as f64 / r.den as f64
}

fn no_callback() -> Option<fn(PositionReport) -> bool> {
    None
}

#[test]
fn test_brute_force_generator_creation() {
    let ascii_gen = create_test_ascii_generator();
    let target_img = create_test_target_image();

    let bf_gen = BruteForceGenerator::new(2, 2, &ascii_gen, &target_img, false);

    assert_eq!(bf_gen.width(), 2);
    assert_eq!(bf_gen.height(), 2);
    assert_eq!(bf_gen.background_threshold(), 50);
}

#[test]
fn test_find_best_char_for_position() {
    let ascii_gen = create_test_ascii_generator();
    let target_img = create_test_target_image();
    let bf_gen = BruteForceGenerator::new(2, 2, &ascii_gen, &target_img, false);

    let current_chars = vec![b' '; 4];
    let best_char = bf_gen.find_best_char_for_position(0, 0, &current_chars, 0);

    // Should return a valid character from the allowed set
    assert!(ALLOWED_CHARS.contains(&best_char));
}

#[test]
fn brute_force_test_fitness_calculation() {
    let ascii_gen = create_test_ascii_generator();
    let target_img = create_test_target_image();
    let bf_gen = BruteForceGenerator::new(2, 2, &ascii_gen, &target_img, false);

    let individual = Individual::new(vec![b' ', b' ', b' ', b' ']);
    let fitness = value(bf_gen.calculate_fitness(&individual));

    assert!(fitness >= 0.0 && fitness <= 1.0);
}

#[test]
fn the_threshold_follows_the_background_mode() {
    let ascii_gen = create_test_ascii_generator();
    let target_img = create_test_target_image();
    let dark = BruteForceGenerator::new(2, 2, &ascii_gen, &target_img, false);
    let light = BruteForceGenerator::new(2, 2, &ascii_gen, &target_img, true);
    assert_eq!(dark.background_threshold(), 50);
    assert_eq!(light.background_threshold(), 200);
    assert_eq!(dark.total_non_background_pixels(), 0);
    assert_eq!(light.total_non_background_pixels(), 400);
}

#[test]
fn a_cell_without_foreground_prefers_the_background_glyph() {
    let ascii_gen = create_test_ascii_generator();
    let target_img = create_test_target_image();
    let bf_gen = BruteForceGenerator::new(2, 2, &ascii_gen, &target_img, false);
    assert_eq!(bf_gen.calculate_fitness_for_position(0, 0, b' '), Ratio::one());
    assert_eq!(bf_gen.calculate_fitness_for_position(0, 0, b'#'), Ratio::zero());
    assert_eq!(bf_gen.calculate_fitness_for_position(1, 1, b'A'), Ratio::zero());
    // a cell that lies outside the target has no pixels at all
    assert_eq!(bf_gen.calculate_fitness_for_position(7, 7, b' '), Ratio::one());
    assert_eq!(bf_gen.calculate_fitness_for_position(7, 7, b'M'), Ratio::zero());
}

#[test]
fn cell_fitness_counts_matches_and_false_positives() {
    // cells of 2 x 2 pixels; the glyph of '#' is fully lit, that of ' ' empty
    let ascii_gen = AsciiGenerator::new(2, 2, &test_coverage(2, 2));
    // one cell: three foreground pixels, one background pixel
    let target = GrayImage::from_pixels(2, 2, &[255, 240, 100, 0]).unwrap();
    let bf_gen = BruteForceGenerator::new(1, 1, &ascii_gen, &target, false);
    // '#': matches 255 and 240 (within 30 of 255), misses 100, lights up the background
    // pixel: (2 - 0.005) / 3
    assert_eq!(bf_gen.calculate_fitness_for_position(0, 0, b'#'), Ratio::new(1995, 3000));
    // ' ': no match (0 against 255, 240, 100), no false positive
    assert_eq!(bf_gen.calculate_fitness_for_position(0, 0, b' '), Ratio::new(0, 3000));
    assert_eq!(value(bf_gen.calculate_fitness_for_position(0, 0, b'#')), 0.665);
}

#[test]
fn penalties_never_push_the_fitness_below_zero() {
    let ascii_gen = AsciiGenerator::new(2, 2, &test_coverage(2, 2));
    // one dim foreground pixel that '#' misses, three background pixels that it lights up
    let target = GrayImage::from_pixels(2, 2, &[100, 0, 0, 0]).unwrap();
    let bf_gen = BruteForceGenerator::new(1, 1, &ascii_gen, &target, false);
    assert_eq!(bf_gen.calculate_fitness_for_position(0, 0, b'#'), Ratio::new(0, 1000));
    let grid = Individual::new(vec![b'#']);
    assert_eq!(bf_gen.calculate_fitness(&grid), Ratio::new(0, 1000));
    assert_eq!(value(bf_gen.calculate_fitness(&grid)), 0.0);
}

#[test]
fn whole_grid_fitness_uses_the_brute_force_penalty() {
    let ascii_gen = AsciiGenerator::new(2, 2, &test_coverage(2, 2));
    // two cells side by side: the left one fully lit, the right one background
    let target = GrayImage::from_pixels(4, 2, &[255, 255, 0, 0, 255, 255, 0, 0]).unwrap();
    let bf_gen = BruteForceGenerator::new(2, 1, &ascii_gen, &target, false);
    assert_eq!(bf_gen.total_non_background_pixels(), 4);
    let perfect = Individual::new(vec![b'#', b' ']);
    assert_eq!(bf_gen.calculate_fitness(&perfect), Ratio::new(4000, 4000));
    // four matches, four false positives at 0.005 each: (4 - 0.02) / 4
    let too_much = Individual::new(vec![b'#', b'#']);
    assert_eq!(bf_gen.calculate_fitness(&too_much), Ratio::new(3980, 4000));
    assert_eq!(value(bf_gen.calculate_fitness(&too_much)), 0.995);
    let nothing = Individual::new(vec![b' ', b' ']);
    assert_eq!(bf_gen.calculate_fitness(&nothing), Ratio::new(0, 4000));
}

#[test]
fn ties_keep_the_first_character_of_the_alphabet() {
    // a font in which every glyph but the space is fully lit
    let mut coverage = Vec::new();
    for code in 0x20u32..=0x7F {
        let mut samples = Vec::new();
        if code != 0x20 {
            samples.push(CoverageSample { x: 0, y: 0, intensity: 255 });
        }
        coverage.push(samples);
    }
    let ascii_gen = AsciiGenerator::new(1, 1, &coverage);
    let target = GrayImage::from_pixels(1, 1, &[255]).unwrap();
    let bf_gen = BruteForceGenerator::new(1, 1, &ascii_gen, &target, false);
    // every character but the space scores 1; '<' is the first of them
    assert_eq!(bf_gen.find_best_char_for_position(0, 0, &[b' '], 0), b'<');
    // where nothing scores above zero the background glyph stays
    let dim = GrayImage::from_pixels(1, 1, &[100]).unwrap();
    let bf_gen = BruteForceGenerator::new(1, 1, &ascii_gen, &dim, false);
    assert_eq!(bf_gen.find_best_char_for_position(0, 0, &[b' '], 0), b' ');
}

#[test]
fn generate_decides_every_cell() {
    let ascii_gen = AsciiGenerator::new(2, 2, &test_coverage(2, 2));
    // a 3 x 2 grid: lit cells at (0,0), (0,2) and (1,1)
    let lit = [true, false, true, false, true, false];
    let mut target = GrayImage::new(6, 4);
    for y in 0..4u32 {
        for x in 0..6u32 {
            let cell = (y / 2) * 3 + x / 2;
            if lit[cell as usize] {
                target.put_pixel(x, y, 255);
            }
        }
    }
    let bf_gen = BruteForceGenerator::new(3, 2, &ascii_gen, &target, false);
    let (result, decided) = bf_gen.generate(false, no_callback());
    assert_eq!(decided, 6);
    assert_eq!(result.chars, b"# # # ".to_vec());
    assert_eq!(result.fitness, Ratio::new(12000, 12000));
    assert_eq!(value(result.fitness), 1.0);
    assert_eq!(result.fitness, bf_gen.calculate_fitness(&result));
    for position in 0..6u32 {
        let best = bf_gen.find_best_char_for_position(position / 3, position % 3, &result.chars, 0);
        assert_eq!(best, result.chars[position as usize]);
    }
}

#[test]
fn generate_reports_each_cell_and_stops_on_request() {
    let ascii_gen = AsciiGenerator::new(2, 2, &test_coverage(2, 2));
    let target = GrayImage::from_pixels(4, 4, &[255; 16]).unwrap();
    let bf_gen = BruteForceGenerator::new(2, 2, &ascii_gen, &target, false);

    let mut reports: Vec<(u32, u32, u32, u32, Option<String>)> = Vec::new();
    let (result, decided) = bf_gen.generate(
        true,
        Some(|r: PositionReport| {
            reports.push((r.position, r.total_positions, r.width, r.height, r.ascii_art));
            true
        }),
    );
    assert_eq!(decided, 4);
    assert_eq!(result.chars, b"####".to_vec());
    assert_eq!(reports.len(), 4);
    let previews = ["# \n  ", "##\n  ", "##\n# ", "##\n##"];
    for (i, report) in reports.iter().enumerate() {
        assert_eq!(report.0, i as u32 + 1);
        assert_eq!(report.1, 4);
        assert_eq!((report.2, report.3), (2, 2));
        assert_eq!(report.4.as_deref(), Some(previews[i]));
    }

    // stopping after the second cell leaves the others blank
    let mut calls = 0;
    let (result, decided) = bf_gen.generate(
        false,
        Some(|r: PositionReport| {
            assert!(r.ascii_art.is_none());
            calls += 1;
            r.position < 2
        }),
    );
    assert_eq!(calls, 2);
    assert_eq!(decided, 2);
    assert_eq!(result.chars, b"##  ".to_vec());
    assert_eq!(result.fitness, Ratio::new(8000, 16000));
    assert_eq!(value(result.fitness), 0.5);
}

#[test]
fn dark_glyphs_on_a_light_background() {
    let ascii_gen = AsciiGenerator::new(2, 2, &test_coverage(2, 2));
    // white paper with ink in the left cell
    let target = GrayImage::from_pixels(4, 2, &[0, 0, 255, 255, 0, 0, 255, 255]).unwrap();
    let bf_gen = BruteForceGenerator::new(2, 1, &ascii_gen, &target, true);
    assert_eq!(bf_gen.background_threshold(), 200);
    assert_eq!(bf_gen.total_non_background_pixels(), 4);
    let (result, decided) = bf_gen.generate(false, no_callback());
    assert_eq!(decided, 2);
    assert_eq!(result.chars, b"# ".to_vec());
    assert_eq!(value(result.fitness), 1.0);
    // ink where the paper is white is a false positive
    let both = Individual::new(vec![b'#', b'#']);
    assert_eq!(bf_gen.calculate_fitness(&both), Ratio::new(3980, 4000));
}
