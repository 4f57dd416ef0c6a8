use asciigen::ascii_generator::{AsciiGenerator, CoverageSample};
use asciigen::brute_force::{BruteForceGenerator, PositionReport};
use asciigen::genetic_algorithm::{GenerationReport, GeneticAlgorithm, Individual};
use asciigen::raster::GrayImage;
use asciigen::ratio::Ratio;
use asciigen::scoring::{
    background_threshold, count_foreground, evaluate_grid, pixel_is_lit, pixels_match,
    score_to_ratio, tally_region, Tally,
};

/// A font in which `#` covers its whole cell and no other glyph has ink: with
/// it the alphabet behaves like the two characters ' ' and '#'.
fn two_glyph_coverage(char_width: u32, char_height: u32) -> Vec<Vec<CoverageSample>> {
    let mut coverage = Vec::new();
    for code in 0x20u32..=0x7F {
        let mut samples = Vec::new();
        if code == 0x23 {
            for y in 0..char_height {
                for x in 0..char_width {
                    samples.push(CoverageSample { x, y, intensity: 255 });
                }
            }
        }
        coverage.push(samples);
    }
    coverage
}

fn value(r: Ratio) -> f64 {
    r.num as f64 / r.den as f64
}

fn no_position_callback() -> Option<fn(PositionReport) -> bool> {
    None
}

#[test]
fn fitness_stays_between_zero_and_one() {
    let generator = AsciiGenerator::new(2, 3, &two_glyph_coverage(2, 3));
    let pixels: Vec<u8> = (0..48u32).map(|i| (i * 37 % 256) as u8).collect();
    let target = GrayImage::from_pixels(8, 6, &pixels).unwrap();
    for white_background in [false, true] {
        let ga = GeneticAlgorithm::new(4, 2, 10, &generator, &target, 1, None, white_background)
            .unwrap();
        let bf = BruteForceGenerator::new(4, 2, &generator, &target, white_background);
        let grids: [&[u8]; 5] =
            [b"        ", b"########", b"# # # # ", b"####", b"#A#A#A#A#A#A"];
        for grid in grids {
            let fitness = ga.calculate_fitness_for_chars(grid);
            assert!(fitness.den > 0 && fitness.num <= fitness.den);
            assert!(value(fitness) >= 0.0 && value(fitness) <= 1.0);
            let fitness = bf.calculate_fitness(&Individual::new(grid.to_vec()));
            assert!(fitness.den > 0 && fitness.num <= fitness.den);
        }
        for _ in 0..20 {
            let random = Individual::new_random_with_background_prob(8, Ratio::new(1, 2));
            let fitness = ga.calculate_fitness(&random);
            assert!(fitness.den > 0 && fitness.num <= fitness.den);
        }
    }
}

#[test]
fn genetic_fitness_is_the_documented_formula() {
    let generator = AsciiGenerator::new(2, 2, &two_glyph_coverage(2, 2));
    // left cell: three foreground pixels and one background pixel; right cell: background
    let target = GrayImage::from_pixels(4, 2, &[255, 230, 0, 0, 60, 0, 0, 40]).unwrap();
    let ga = GeneticAlgorithm::new(2, 1, 10, &generator, &target, 1, None, false).unwrap();
    // "# ": matches 255 and 230, misses 60, one false positive: (2 - 0.01) / 3
    assert_eq!(ga.calculate_fitness_for_chars(b"# "), Ratio::new(1990, 3000));
    // "##": the right cell adds four false positives: (2 - 0.05) / 3
    assert_eq!(ga.calculate_fitness_for_chars(b"##"), Ratio::new(1950, 3000));
    assert_eq!(value(ga.calculate_fitness_for_chars(b"##")), 0.65);
    // " #": no match, four false positives: clamped to zero
    assert_eq!(ga.calculate_fitness_for_chars(b" #"), Ratio::new(0, 3000));
    assert_eq!(ga.calculate_fitness_for_chars(b"  "), Ratio::new(0, 3000));
    // the same through the function that takes everything as arguments
    let fitness = GeneticAlgorithm::calculate_fitness_for_chars_static(
        b"# ", &generator, &target, 2, 1, 3, 50, false,
    );
    assert_eq!(fitness, Ratio::new(1990, 3000));
    // a divisor of zero gives fitness zero
    let fitness = GeneticAlgorithm::calculate_fitness_for_chars_static(
        b"# ", &generator, &target, 2, 1, 0, 50, false,
    );
    assert_eq!(fitness, Ratio::new(0, 1));
}

#[test]
fn only_the_overlap_of_rendering_and_target_is_compared() {
    let generator = AsciiGenerator::new(2, 2, &two_glyph_coverage(2, 2));
    // a target smaller than the rendering: 3 x 1 against 4 x 2
    let small = GrayImage::from_pixels(3, 1, &[255, 255, 255]).unwrap();
    assert_eq!(evaluate_grid(b"##", &generator, &small, 2, 1, 3, 50, false, 10), Ratio::new(3000, 3000));
    assert_eq!(evaluate_grid(b"# ", &generator, &small, 2, 1, 3, 50, false, 10), Ratio::new(2000, 3000));
    // a target larger than the rendering: pixels outside it are never matched
    let large = GrayImage::from_pixels(5, 3, &[255; 15]).unwrap();
    assert_eq!(evaluate_grid(b"##", &generator, &large, 2, 1, 15, 50, false, 5), Ratio::new(8000, 15000));
}

#[test]
fn tallies_count_relevant_matching_and_false_positive_pixels() {
    let candidate = GrayImage::from_pixels(2, 2, &[255, 0, 255, 90]).unwrap();
    let target = GrayImage::from_pixels(3, 3, &[0, 0, 0, 0, 255, 80, 0, 0, 70]).unwrap();
    // the candidate over the target's lower right corner
    let tally = tally_region(&candidate, &target, 1, 1, 50, false);
    // target pixels 255, 80, 0, 70 against candidate 255, 0, 255, 90
    assert_eq!(tally, Tally { relevant: 3, matches: 2, false_positives: 1 });
    // shifted so that only one column overlaps
    let tally = tally_region(&candidate, &target, 2, 0, 50, false);
    // target pixels 0 and 80 against candidate 255 and 255
    assert_eq!(tally, Tally { relevant: 1, matches: 0, false_positives: 1 });
    // no overlap at all
    let tally = tally_region(&candidate, &target, 3, 0, 50, false);
    assert_eq!(tally, Tally { relevant: 0, matches: 0, false_positives: 0 });
    assert_eq!(score_to_ratio(2, 1, 3, 5), Ratio::new(1995, 3000));
    assert_eq!(score_to_ratio(2, 1, 3, 10), Ratio::new(1990, 3000));
    assert_eq!(score_to_ratio(0, 7, 3, 10), Ratio::new(0, 3000));
}

#[test]
fn classification_follows_the_threshold_direction() {
    assert_eq!(background_threshold(false), 50);
    assert_eq!(background_threshold(true), 200);
    assert!(pixel_is_lit(51, 50, false));
    assert!(!pixel_is_lit(50, 50, false));
    assert!(pixel_is_lit(199, 200, true));
    assert!(!pixel_is_lit(200, 200, true));
    assert!(pixels_match(100, 129));
    assert!(pixels_match(129, 100));
    assert!(!pixels_match(100, 130));
    assert!(!pixels_match(130, 100));
    assert!(pixels_match(0, 0));
    assert!(!pixels_match(0, 255));
}

#[test]
fn brute_force_on_a_blank_target_gives_a_blank_grid() {
    let generator = AsciiGenerator::new(3, 4, &two_glyph_coverage(3, 4));
    let target = GrayImage::new(15, 12);
    let search = BruteForceGenerator::new(5, 3, &generator, &target, false);
    let (result, _) = search.generate(false, no_position_callback());
    assert_eq!(result.chars, vec![b' '; 15]);
    // white paper without ink, dark glyphs
    let mut paper = GrayImage::new(15, 12);
    for y in 0..12 {
        for x in 0..15 {
            paper.put_pixel(x, y, 255);
        }
    }
    let search = BruteForceGenerator::new(5, 3, &generator, &paper, true);
    let (result, _) = search.generate(false, no_position_callback());
    assert_eq!(result.chars, vec![b' '; 15]);
}

#[test]
fn scenario_fully_lit_target() {
    let generator = AsciiGenerator::new(2, 2, &two_glyph_coverage(2, 2));
    let target = GrayImage::from_pixels(4, 4, &[255; 16]).unwrap();

    let search = BruteForceGenerator::new(2, 2, &generator, &target, false);
    let (result, _) = search.generate(false, no_position_callback());
    assert_eq!(result.chars, b"####".to_vec());
    assert_eq!(value(result.fitness), 1.0);

    let mut ga = GeneticAlgorithm::new(2, 2, 20, &generator, &target, 2, None, false).unwrap();
    let (best, _) = ga.evolve(
        0,
        false,
        Some(|report: GenerationReport| {
            report.best_fitness.num < report.best_fitness.den && report.generation < 2_000_000
        }),
    );
    assert_eq!(best.chars, b"####".to_vec());
    assert_eq!(value(best.fitness), 1.0);
    assert_eq!(best.fitness, Ratio::new(16000, 16000));

    // seeded with the right character the first generations already hold the answer
    let mut seeded = GeneticAlgorithm::new(2, 2, 20, &generator, &target, 2, Some('#'), false).unwrap();
    let (best, _) = seeded.evolve(
        0,
        false,
        Some(|report: GenerationReport| {
            report.best_fitness.num < report.best_fitness.den && report.generation < 2_000_000
        }),
    );
    assert_eq!(best.chars, b"####".to_vec());
    assert_eq!(value(best.fitness), 1.0);
}

#[test]
fn scenario_blank_target() {
    let generator = AsciiGenerator::new(2, 2, &two_glyph_coverage(2, 2));
    let target = GrayImage::new(4, 4);

    let search = BruteForceGenerator::new(2, 2, &generator, &target, false);
    let (result, _) = search.generate(false, no_position_callback());
    assert_eq!(result.chars, b"    ".to_vec());
    // every cell scores 1 with the background glyph ...
    for position in 0..4 {
        assert_eq!(
            value(search.calculate_fitness_for_position(position / 2, position % 2, b' ')),
            1.0
        );
    }
    // ... while the whole grid, for want of foreground pixels, has fitness 0
    assert_eq!(value(result.fitness), 0.0);
    assert_eq!(result.fitness, Ratio::zero());

    let mut ga = GeneticAlgorithm::new(2, 2, 20, &generator, &target, 2, None, false).unwrap();
    // the target is all background, so every random character is the background glyph
    for individual in ga.population() {
        assert_eq!(individual.chars, b"    ".to_vec());
    }
    let mut generations = 0;
    let (best, last_generation) = ga.evolve(
        50,
        false,
        Some(|_report: GenerationReport| {
            generations += 1;
            true
        }),
    );
    assert_eq!(generations, 50);
    assert_eq!(last_generation, 49);
    assert_eq!(best.chars, b"    ".to_vec());
    assert_eq!(value(best.fitness), 0.0);
    assert_eq!(best.fitness, Ratio::zero());
    for individual in ga.population() {
        assert_eq!(individual.chars, b"    ".to_vec());
    }
}

#[test]
fn scenario_grid_to_text() {
    let generator = AsciiGenerator::new(2, 2, &two_glyph_coverage(2, 2));
    let grid = Individual::new(vec![b'H', b'i', b'!', b' ']);
    assert_eq!(generator.individual_to_string(&grid, 2), "Hi\n! ");
}

#[test]
fn scenario_background_count_by_mode() {
    let target = GrayImage::new(20, 20);
    // light glyphs on dark: a black target is all background
    let foreground = GeneticAlgorithm::count_non_background_pixels(&target, 50, false);
    assert_eq!(foreground, 0);
    assert_eq!(400 - foreground, 400);
    // dark glyphs on light: a black target is all ink
    let foreground = GeneticAlgorithm::count_non_background_pixels(&target, 200, true);
    assert_eq!(foreground, 400);
    assert_eq!(400 - foreground, 0);
    // both engines and the shared function agree
    for (threshold, white_background) in [(50u8, false), (200u8, true)] {
        assert_eq!(
            BruteForceGenerator::count_non_background_pixels(&target, threshold, white_background),
            GeneticAlgorithm::count_non_background_pixels(&target, threshold, white_background)
        );
        assert_eq!(
            count_foreground(&target, threshold, white_background),
            GeneticAlgorithm::count_non_background_pixels(&target, threshold, white_background)
        );
    }
    let mixed = GrayImage::from_pixels(3, 2, &[0, 50, 51, 199, 200, 255]).unwrap();
    assert_eq!(count_foreground(&mixed, 50, false), 4);
    assert_eq!(count_foreground(&mixed, 200, true), 4);
}

#[test]
fn tournament_returns_a_member_of_the_population() {
    let generator = AsciiGenerator::new(2, 2, &two_glyph_coverage(2, 2));
    let target = GrayImage::from_pixels(4, 4, &[255; 16]).unwrap();
    let mut ga = GeneticAlgorithm::new(2, 2, 12, &generator, &target, 1, None, false).unwrap();
    for i in 0..12 {
        ga.set_fitness(i, Ratio::new(i as u64, 12));
    }
    for _ in 0..50 {
        let selected = ga.tournament_selection();
        assert!(ga
            .population()
            .iter()
            .any(|member| member.chars == selected.chars && member.fitness == selected.fitness));
        assert!(selected.fitness.den > 0);
    }
    // the winner is the fittest entrant, and of equally fit ones the first
    assert_eq!(ga.tournament_winner(&[3, 7, 5]), 7);
    assert_eq!(ga.tournament_winner(&[7, 3, 5]), 7);
    assert_eq!(ga.tournament_winner(&[4]), 4);
    ga.set_fitness(2, Ratio::new(9, 12));
    assert_eq!(ga.tournament_winner(&[2, 9, 1]), 2);
    assert_eq!(ga.tournament_winner(&[9, 2, 1]), 9);
}
