use asciigen::ascii_generator::{AsciiGenerator, CoverageSample};
use asciigen::genetic_algorithm::Individual;
use asciigen::ratio::Ratio;

/// Samples of a made-up font: the space is empty, `#` covers its whole cell
/// and every other character covers a pattern that depends on its code.
fn test_coverage(char_width: u32, char_height: u32) -> Vec<Vec<CoverageSample>> {
    let mut coverage = Vec::new();
    for code in 0x20u32..=0x7F {
        let mut samples = Vec::new();
        for y in 0..char_height {
            for x in 0..char_width {
                let lit = match code {
                    0x20 => false,
                    0x23 => true,
                    _ => (code * 7 + x * 3 + y * 5) % 4 == 0,
                };
                if lit {
                    samples.push(CoverageSample { x, y, intensity: 255 });
                }
            }
        }
        coverage.push(samples);
    }
    coverage
}

fn create_test_ascii_generator() -> AsciiGenerator {
    AsciiGenerator::new(8, 15, &test_coverage(8, 15))
}

#[test]
fn test_ascii_generator_creation() {
    let generator = create_test_ascii_generator();
    assert!(generator.cached_glyph_count() != 0);
    assert!(generator.cached_glyph_count() >= 95); // 0x20 to 0x7F
}

#[test]
fn test_char_dimensions() {
    let generator = create_test_ascii_generator();
    let (width, height) = generator.char_dimensions();
    assert!(width > 0);
    assert!(height > 0);
}

#[test]
fn test_generate_ascii_image() {
    let generator = create_test_ascii_generator();
    let chars = vec![b'A', b'B', b'C', b'D'];
    let result = generator.generate_ascii_image(&chars, 2, 2);

    let (char_width, char_height) = generator.char_dimensions();
    assert_eq!(result.width(), 2 * char_width);
    assert_eq!(result.height(), 2 * char_height);
}

#[test]
fn test_individual_to_string() {
    let generator = create_test_ascii_generator();
    let individual = Individual {
        chars: vec![b'H', b'i', b'!', b' '],
        fitness: Ratio::zero(),
    };

    let result = generator.individual_to_string(&individual, 2);
    assert_eq!(result, "Hi\n! ");
}

#[test]
fn test_render_char() {
    let generator = create_test_ascii_generator();
    let coverage = test_coverage(8, 15);
    let char_img = generator.render_char(&coverage[(b'A' - 0x20) as usize]);

    let (char_width, char_height) = generator.char_dimensions();
    assert_eq!(char_img.width(), char_width);
    assert_eq!(char_img.height(), char_height);
}

#[test]
fn every_printable_code_has_a_glyph_of_cell_size() {
    let generator = create_test_ascii_generator();
    assert_eq!(generator.cached_glyph_count(), 96);
    for code in 0x20u8..=0x7F {
        let glyph = generator.cached_glyph(code).expect("glyph");
        assert_eq!(glyph.dimensions(), (8, 15));
    }
    assert!(generator.cached_glyph(0x1F).is_none());
    assert!(generator.cached_glyph(0x80).is_none());
}

#[test]
fn a_short_coverage_list_leaves_the_other_glyphs_empty() {
    let mut coverage = test_coverage(2, 2);
    coverage.truncate(4); // ' ', '!', '"', '#'
    let generator = AsciiGenerator::new(2, 2, &coverage);
    assert_eq!(generator.cached_glyph_count(), 96);
    assert_eq!(generator.cached_glyph(b'#').unwrap().to_pixels(), vec![255; 4]);
    assert_eq!(generator.cached_glyph(b'A').unwrap().to_pixels(), vec![0; 4]);
}

#[test]
fn render_char_drops_samples_outside_the_cell_and_keeps_the_last_one() {
    let generator = AsciiGenerator::new(3, 2, &Vec::new());
    let samples = vec![
        CoverageSample { x: 0, y: 0, intensity: 10 },
        CoverageSample { x: 2, y: 1, intensity: 20 },
        CoverageSample { x: 3, y: 0, intensity: 30 },
        CoverageSample { x: 0, y: 2, intensity: 40 },
        CoverageSample { x: 0xFFFF_FFFF, y: 0, intensity: 50 },
        CoverageSample { x: 0, y: 0, intensity: 60 },
    ];
    let glyph = generator.render_char(&samples);
    assert_eq!(glyph.to_pixels(), vec![60, 0, 0, 0, 0, 20]);
}

#[test]
fn composition_tiles_the_glyphs() {
    let generator = AsciiGenerator::new(2, 2, &test_coverage(2, 2));
    // '#' is fully covered, ' ' is empty
    let chars = vec![b'#', b' ', b' ', b'#'];
    let image = generator.generate_ascii_image(&chars, 2, 2);
    assert_eq!(image.dimensions(), (4, 4));
    assert_eq!(
        image.to_pixels(),
        vec![255, 255, 0, 0, 255, 255, 0, 0, 0, 0, 255, 255, 0, 0, 255, 255]
    );
}

#[test]
fn composition_on_white_inverts_glyphs_and_background() {
    let generator = AsciiGenerator::new(2, 2, &test_coverage(2, 2));
    let chars = vec![b'#', b' '];
    let image = generator.generate_ascii_image_with_background(&chars, 2, 1, true);
    assert_eq!(image.dimensions(), (4, 2));
    assert_eq!(image.to_pixels(), vec![0, 0, 255, 255, 0, 0, 255, 255]);
}

#[test]
fn composition_leaves_missing_and_unknown_characters_blank() {
    let generator = AsciiGenerator::new(1, 1, &test_coverage(1, 1));
    // only three characters for four cells; code 0x07 has no glyph
    let chars = vec![b'#', 0x07, b'#'];
    let image = generator.generate_ascii_image(&chars, 2, 2);
    assert_eq!(image.to_pixels(), vec![255, 0, 255, 0]);
    // characters beyond the grid are ignored
    let long = vec![b'#'; 9];
    let image = generator.generate_ascii_image(&long, 2, 2);
    assert_eq!(image.to_pixels(), vec![255; 4]);
    // a grid without columns has no pixels
    let image = generator.generate_ascii_image(&long, 0, 2);
    assert_eq!(image.dimensions(), (0, 2));
}

#[test]
fn text_has_one_row_per_grid_row() {
    let generator = create_test_ascii_generator();
    let grid = Individual::new(b"abcdefg".to_vec());
    assert_eq!(generator.individual_to_string(&grid, 3), "abc\ndef\ng");
    assert_eq!(generator.individual_to_string(&grid, 7), "abcdefg");
    assert_eq!(generator.individual_to_string(&grid, 1), "a\nb\nc\nd\ne\nf\ng");
    assert_eq!(generator.individual_to_string(&grid, 0), "abcdefg");
    assert_eq!(generator.individual_to_string(&Individual::new(Vec::new()), 2), "");
}
