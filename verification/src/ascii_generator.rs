//! Glyph bitmaps for the printable ASCII codes and the composition of
//! character grids from them.
use std::collections::HashMap;
use vstd::prelude::*;
use vstd::arithmetic::div_mod::{lemma_fundamental_div_mod, lemma_fundamental_div_mod_converse};
use crate::genetic_algorithm::Individual;
use crate::raster::{lemma_index_in_range, Bitmap, GrayImage};

verus! {

/// First character code that has a glyph.
pub const FIRST_CODE: u8 = 0x20;

/// Last character code that has a glyph.
pub const LAST_CODE: u8 = 0x7F;

/// One sample of a rasterized glyph: how strongly the glyph covers the cell
/// pixel `(x, y)`, from 0 (not at all) to 255 (fully).
#[derive(Clone, Copy, Debug, PartialEq, Eq, Structural)]
pub struct CoverageSample {
    pub x: u32,
    pub y: u32,
    pub intensity: u8,
}

/// The sample falls inside a cell of the given size.
pub open spec fn sample_lands(sample: CoverageSample, width: nat, height: nat) -> bool {
    sample.x <= i32::MAX && sample.y <= i32::MAX && sample.x < width && sample.y < height
}

/// The cell bitmap obtained by drawing the samples, in order, onto black.
/// Samples outside the cell are dropped; a later sample overwrites an earlier
/// one at the same pixel.
pub open spec fn rendered(width: nat, height: nat, samples: Seq<CoverageSample>) -> Bitmap
    decreases samples.len(),
{
    if samples.len() == 0 {
        Bitmap::uniform(width, height, 0)
    } else {
        let before = rendered(width, height, samples.drop_last());
        let sample = samples.last();
        if sample_lands(sample, width, height) {
            Bitmap {
                width,
                height,
                pixels: before.pixels.update(sample.y * width + sample.x, sample.intensity),
            }
        } else {
            before
        }
    }
}

/// The samples handed in for a character code: entry `code - 0x20` of the
/// list, or none where the list is too short.
pub open spec fn coverage_of(coverage: Seq<Vec<CoverageSample>>, code: u8) -> Seq<CoverageSample> {
    if FIRST_CODE <= code && code - FIRST_CODE < coverage.len() {
        coverage[code - FIRST_CODE]@
    } else {
        Seq::empty()
    }
}

/// Intensity of a glyph pixel as it is drawn: unchanged for light glyphs on a
/// dark background, inverted for dark glyphs on a light one.
pub open spec fn toned(value: u8, white_background: bool) -> u8 {
    if white_background {
        (255 - value) as u8
    } else {
        value
    }
}

/// Intensity of pixels that no glyph covers.
pub open spec fn background_tone(white_background: bool) -> u8 {
    if white_background {
        255
    } else {
        0
    }
}

/// `String::push` appends the character to the end of the string.
pub assume_specification[ String::push ](text: &mut String, ch: char)
    ensures
        final(text)@ == old(text)@.push(ch),
;

/// The text of the first `count` characters of a grid `width` characters
/// wide: the characters in order, with a line break before every character
/// that starts a new row. A width of zero gives a single row.
pub open spec fn grid_text(chars: Seq<u8>, width: nat, count: int) -> Seq<char>
    decreases count,
{
    if count <= 0 {
        Seq::empty()
    } else {
        let before = grid_text(chars, width, count - 1);
        let i = count - 1;
        let line = if i > 0 && width > 0 && i % width as int == 0 {
            before.push('\n')
        } else {
            before
        };
        line.push(chars[i] as char)
    }
}

/// Renders character grids from glyph bitmaps that are rasterized once, at
/// construction, and never change afterwards.
pub struct AsciiGenerator {
    char_width: u32,
    char_height: u32,
    char_cache: HashMap<u8, GrayImage>,
}

impl AsciiGenerator {
    /// Width of a character cell in pixels.
    pub closed spec fn spec_char_width(&self) -> nat {
        self.char_width as nat
    }

    /// Height of a character cell in pixels.
    pub closed spec fn spec_char_height(&self) -> nat {
        self.char_height as nat
    }

    /// The cache holds a glyph for `code`.
    pub closed spec fn has_glyph(&self, code: u8) -> bool {
        self.char_cache@.contains_key(code)
    }

    /// Number of cached glyphs.
    pub closed spec fn glyph_count(&self) -> nat {
        self.char_cache@.len()
    }

    /// The cached glyph of `code`.
    pub closed spec fn glyph(&self, code: u8) -> Bitmap {
        self.char_cache@[code]@
    }

    /// Every code from 0x20 to 0x7F has a glyph, and every glyph has the size
    /// of a cell.
    pub open spec fn wf(&self) -> bool {
        &&& self.spec_char_width() * self.spec_char_height() <= isize::MAX
        &&& self.spec_char_width() <= u32::MAX
        &&& self.spec_char_height() <= u32::MAX
        &&& forall|code: u8| FIRST_CODE <= code <= LAST_CODE ==> #[trigger] self.has_glyph(code)
        &&& forall|code: u8| #[trigger]
            self.has_glyph(code) ==> {
                &&& self.glyph(code).width == self.spec_char_width()
                &&& self.glyph(code).height == self.spec_char_height()
                &&& self.glyph(code).wf()
            }
    }

    /// A `width x height` grid can be rendered: the bitmap's sides fit in 32
    /// bits and its pixels in one buffer.
    pub open spec fn can_compose(&self, width: nat, height: nat) -> bool {
        &&& width * self.spec_char_width() <= u32::MAX
        &&& height * self.spec_char_height() <= u32::MAX
        &&& (width * self.spec_char_width()) * (height * self.spec_char_height()) <= isize::MAX
    }

    /// Intensity at `(x, y)` of the rendering of a grid `width` cells wide:
    /// the glyph of the cell that the pixel belongs to, at the pixel's place
    /// within the cell, or the background where the grid has no character or
    /// the character has no glyph.
    pub open spec fn composed_pixel(
        &self,
        chars: Seq<u8>,
        width: nat,
        x: int,
        y: int,
        white_background: bool,
    ) -> u8 {
        let cell = (y / self.spec_char_height() as int) * width + x / self.spec_char_width() as int;
        if cell < chars.len() && self.has_glyph(chars[cell]) {
            toned(
                self.glyph(chars[cell]).pixel(
                    x % self.spec_char_width() as int,
                    y % self.spec_char_height() as int,
                ),
                white_background,
            )
        } else {
            background_tone(white_background)
        }
    }

    /// The rendering of a `width x height` grid of character codes, given
    /// row by row.
    pub open spec fn composed(
        &self,
        chars: Seq<u8>,
        width: nat,
        height: nat,
        white_background: bool,
    ) -> Bitmap {
        let pixel_width = width * self.spec_char_width();
        let pixel_height = height * self.spec_char_height();
        Bitmap {
            width: pixel_width,
            height: pixel_height,
            pixels: Seq::new(
                pixel_width * pixel_height,
                |k: int|
                    self.composed_pixel(
                        chars,
                        width,
                        k % pixel_width as int,
                        k / pixel_width as int,
                        white_background,
                    ),
            ),
        }
    }

    /// Builds the generator for cells of the given size. `coverage[i]` holds
    /// the rasterizer's samples for character code `0x20 + i`; a code without
    /// an entry gets an empty glyph.
    pub fn new(char_width: u32, char_height: u32, coverage: &Vec<Vec<CoverageSample>>) -> (generator:
        AsciiGenerator)
        requires
            char_width * char_height <= isize::MAX,
        ensures
            generator.wf(),
            generator.spec_char_width() == char_width,
            generator.spec_char_height() == char_height,
            generator.glyph_count() == LAST_CODE - FIRST_CODE + 1,
            forall|code: u8| generator.has_glyph(code) <==> FIRST_CODE <= code <= LAST_CODE,
            forall|code: u8|
                FIRST_CODE <= code <= LAST_CODE ==> #[trigger] generator.glyph(code) == rendered(
                    char_width as nat,
                    char_height as nat,
                    coverage_of(coverage@, code),
                ),
    {
        let mut generator = AsciiGenerator { char_width, char_height, char_cache: HashMap::new() };
        generator.build_char_cache(coverage);
        generator
    }

    /// Renders the glyph of every code from 0x20 to 0x7F and caches it.
    fn build_char_cache(&mut self, coverage: &Vec<Vec<CoverageSample>>)
        requires
            old(self).char_width * old(self).char_height <= isize::MAX,
            old(self).char_cache@ == Map::<u8, GrayImage>::empty(),
        ensures
            final(self).wf(),
            final(self).char_width == old(self).char_width,
            final(self).char_height == old(self).char_height,
            final(self).glyph_count() == LAST_CODE - FIRST_CODE + 1,
            forall|code: u8| final(self).has_glyph(code) <==> FIRST_CODE <= code <= LAST_CODE,
            forall|code: u8|
                FIRST_CODE <= code <= LAST_CODE ==> #[trigger] final(self).glyph(code) == rendered(
                    old(self).char_width as nat,
                    old(self).char_height as nat,
                    coverage_of(coverage@, code),
                ),
    {
        let mut code: u8 = FIRST_CODE;
        while code <= LAST_CODE
            invariant
                FIRST_CODE <= code <= LAST_CODE + 1,
                self.char_width == old(self).char_width,
                self.char_height == old(self).char_height,
                self.char_width * self.char_height <= isize::MAX,
                self.char_cache@.dom().finite(),
                self.char_cache@.len() == code - FIRST_CODE,
                forall|c: u8| self.char_cache@.contains_key(c) <==> FIRST_CODE <= c < code,
                forall|c: u8|
                    FIRST_CODE <= c < code ==> #[trigger] self.char_cache@[c]@ == rendered(
                        self.char_width as nat,
                        self.char_height as nat,
                        coverage_of(coverage@, c),
                    ),
            decreases LAST_CODE + 1 - code,
        {
            let slot: usize = (code - FIRST_CODE) as usize;
            let glyph = if slot < coverage.len() {
                self.render_char(coverage[slot].as_slice())
            } else {
                let none: Vec<CoverageSample> = Vec::new();
                self.render_char(none.as_slice())
            };
            self.char_cache.insert(code, glyph);
            code = code + 1;
        }
        proof {
            assert forall|c: u8| #[trigger] self.has_glyph(c) implies {
                &&& self.glyph(c).width == self.spec_char_width()
                &&& self.glyph(c).height == self.spec_char_height()
                &&& self.glyph(c).wf()
            } by {
                lemma_rendered_shape(
                    self.char_width as nat,
                    self.char_height as nat,
                    coverage_of(coverage@, c),
                );
            }
        }
    }

    /// Draws a glyph's coverage samples into a fresh black cell bitmap.
    pub fn render_char(&self, samples: &[CoverageSample]) -> (glyph: GrayImage)
        requires
            self.spec_char_width() * self.spec_char_height() <= isize::MAX,
        ensures
            glyph@ == rendered(self.spec_char_width(), self.spec_char_height(), samples@),
            glyph@.width == self.spec_char_width(),
            glyph@.height == self.spec_char_height(),
            glyph@.wf(),
    {
        let mut img = GrayImage::new(self.char_width, self.char_height);
        let mut i: usize = 0;
        while i < samples.len()
            invariant
                i <= samples.len(),
                img@ == rendered(
                    self.char_width as nat,
                    self.char_height as nat,
                    samples@.subrange(0, i as int),
                ),
                img@.width == self.char_width,
                img@.height == self.char_height,
                img@.wf(),
            decreases samples.len() - i,
        {
            let sample = samples[i];
            proof {
                assert(samples@.subrange(0, i + 1).drop_last() =~= samples@.subrange(0, i as int));
            }
            if sample.x <= i32::MAX as u32 && sample.y <= i32::MAX as u32 && sample.x
                < self.char_width && sample.y < self.char_height {
                img.put_pixel(sample.x, sample.y, sample.intensity);
            }
            i = i + 1;
        }
        proof {
            assert(samples@.subrange(0, samples@.len() as int) =~= samples@);
        }
        img
    }

    /// Generates the bitmap of a character grid, light glyphs on black.
    pub fn generate_ascii_image(&self, chars: &[u8], width: u32, height: u32) -> (img: GrayImage)
        requires
            self.wf(),
            self.can_compose(width as nat, height as nat),
        ensures
            img@ == self.composed(chars@, width as nat, height as nat, false),
            img@.wf(),
    {
        self.generate_ascii_image_with_background(chars, width, height, false)
    }

    /// Generates the bitmap of a character grid by tiling the cached glyphs,
    /// cell `(col, row)` at pixel `(col * cell_width, row * cell_height)`. With
    /// `white_background` the glyphs are drawn dark on white.
    pub fn generate_ascii_image_with_background(
        &self,
        chars: &[u8],
        width: u32,
        height: u32,
        white_background: bool,
    ) -> (img: GrayImage)
        requires
            self.wf(),
            self.can_compose(width as nat, height as nat),
        ensures
            img@ == self.composed(chars@, width as nat, height as nat, white_background),
            img@.wf(),
    {
        let img_width: u32 = width * self.char_width;
        let img_height: u32 = height * self.char_height;
        let mut result = filled_image(img_width, img_height, white_background);
        proof {
            lemma_product_bound(width as int, height as int);
            lemma_uniform_pixels(
                img_width as nat,
                img_height as nat,
                background_tone(white_background),
            );
            assert forall|x: int, y: int| result@.contains(x, y) implies #[trigger] result@.pixel(
                x,
                y,
            ) == self.partial_pixel(chars@, width as nat, 0, x, y, white_background) by {
                lemma_cell_in_grid(
                    x,
                    y,
                    self.char_width as int,
                    self.char_height as int,
                    width as int,
                    height as int,
                );
            }
        }
        let cell_count: u64 = (width as u64) * (height as u64);
        let mut i: usize = 0;
        while i < chars.len() && (i as u64) < cell_count
            invariant
                self.wf(),
                cell_count == width * height,
                img_width == width * self.char_width,
                img_height == height * self.char_height,
                result@.width == img_width,
                result@.height == img_height,
                result@.wf(),
                i <= chars@.len(),
                i <= cell_count,
                forall|x: int, y: int|
                    result@.contains(x, y) ==> #[trigger] result@.pixel(x, y) == self.partial_pixel(
                        chars@,
                        width as nat,
                        i as int,
                        x,
                        y,
                        white_background,
                    ),
            decreases chars@.len() - i,
        {
            proof {
                lemma_cell_position(i as int, width as int, height as int);
            }
            let col: u32 = ((i as u64) % (width as u64)) as u32;
            let row: u32 = ((i as u64) / (width as u64)) as u32;
            proof {
                assert(col * self.char_width + self.char_width <= width * self.char_width)
                    by (nonlinear_arith)
                    requires
                        0 <= col < width,
                        0 <= self.char_width,
                ;
                assert(row * self.char_height + self.char_height <= height * self.char_height)
                    by (nonlinear_arith)
                    requires
                        0 <= row < height,
                        0 <= self.char_height,
                ;
                assert(0 <= col * self.char_width) by (nonlinear_arith)
                    requires
                        0 <= col,
                        0 <= self.char_width,
                ;
                assert(0 <= row * self.char_height) by (nonlinear_arith)
                    requires
                        0 <= row,
                        0 <= self.char_height,
                ;
            }
            let code = chars[i];
            let ghost before = result@;
            match self.cached_glyph(code) {
                Some(char_img) => {
                    self.copy_char_to_image(
                        &mut result,
                        char_img,
                        col * self.char_width,
                        row * self.char_height,
                        white_background,
                    );
                },
                None => {},
            }
            proof {
                assert forall|x: int, y: int| result@.contains(x, y) implies #[trigger] result@.pixel(
                    x,
                    y,
                ) == self.partial_pixel(chars@, width as nat, i + 1, x, y, white_background) by {
                    lemma_cell_in_grid(
                        x,
                        y,
                        self.char_width as int,
                        self.char_height as int,
                        width as int,
                        height as int,
                    );
                    assert(self.char_height > 0) by (nonlinear_arith)
                        requires
                            0 <= y < height * self.char_height,
                            0 <= self.char_height,
                    ;
                    lemma_cell_of_pixel(
                        x,
                        y,
                        self.char_width as int,
                        self.char_height as int,
                        width as int,
                        col as int,
                        row as int,
                    );
                    assert(i == row * width + col);
                    assert(before.contains(x, y));
                    assert(before.pixel(x, y) == self.partial_pixel(
                        chars@,
                        width as nat,
                        i as int,
                        x,
                        y,
                        white_background,
                    ));
                }
            }
            i = i + 1;
        }
        proof {
            let goal = self.composed(chars@, width as nat, height as nat, white_background);
            assert(result@.pixels.len() == goal.pixels.len());
            assert forall|k: int| 0 <= k < result@.pixels.len() implies result@.pixels[k]
                == goal.pixels[k] by {
                let x = k % img_width as int;
                let y = k / img_width as int;
                lemma_pixel_of_index(k, img_width as int, img_height as int);
                assert(result@.contains(x, y));
                assert(result@.pixel(x, y) == result@.pixels[k]);
                lemma_cell_in_grid(
                    x,
                    y,
                    self.char_width as int,
                    self.char_height as int,
                    width as int,
                    height as int,
                );
            }
            assert(result@.pixels =~= goal.pixels);
        }
        result
    }

    /// The cell that the pixel `(x, y)` belongs to, counted row by row.
    pub open spec fn cell_of(&self, width: nat, x: int, y: int) -> int {
        (y / self.spec_char_height() as int) * width + x / self.spec_char_width() as int
    }

    /// Intensity at `(x, y)` once the first `done` cells have been drawn.
    pub open spec fn partial_pixel(
        &self,
        chars: Seq<u8>,
        width: nat,
        done: int,
        x: int,
        y: int,
        white_background: bool,
    ) -> u8 {
        if self.cell_of(width, x, y) < done {
            self.composed_pixel(chars, width, x, y, white_background)
        } else {
            background_tone(white_background)
        }
    }

    /// Copies a glyph into `target` with its top-left corner at
    /// `(start_x, start_y)`, inverted when `invert` is set. Pixels that would
    /// fall outside `target` are left out.
    fn copy_char_to_image(
        &self,
        target: &mut GrayImage,
        char_img: &GrayImage,
        start_x: u32,
        start_y: u32,
        invert: bool,
    )
        requires
            char_img@.width == self.char_width,
            char_img@.height == self.char_height,
            char_img@.wf(),
            old(target)@.wf(),
            start_x + self.char_width <= u32::MAX,
            start_y + self.char_height <= u32::MAX,
        ensures
            final(target)@.width == old(target)@.width,
            final(target)@.height == old(target)@.height,
            final(target)@.wf(),
            forall|x: int, y: int|
                old(target)@.contains(x, y) ==> #[trigger] final(target)@.pixel(x, y) == (if start_x
                    <= x < start_x + self.char_width && start_y <= y < start_y + self.char_height {
                    toned(char_img@.pixel(x - start_x, y - start_y), invert)
                } else {
                    old(target)@.pixel(x, y)
                }),
    {
        let (target_width, target_height) = target.dimensions();
        let ghost before = target@;
        let mut y: u32 = 0;
        while y < self.char_height
            invariant
                y <= self.char_height,
                char_img@.width == self.char_width,
                char_img@.height == self.char_height,
                char_img@.wf(),
                start_x + self.char_width <= u32::MAX,
                start_y + self.char_height <= u32::MAX,
                target@.width == before.width == target_width,
                target@.height == before.height == target_height,
                target@.wf(),
                forall|px: int, py: int|
                    before.contains(px, py) ==> #[trigger] target@.pixel(px, py) == (if start_x
                        <= px < start_x + self.char_width && start_y <= py < start_y + y {
                        toned(char_img@.pixel(px - start_x, py - start_y), invert)
                    } else {
                        before.pixel(px, py)
                    }),
            decreases self.char_height - y,
        {
            let mut x: u32 = 0;
            while x < self.char_width
                invariant
                    y < self.char_height,
                    x <= self.char_width,
                    char_img@.width == self.char_width,
                    char_img@.height == self.char_height,
                    char_img@.wf(),
                    start_x + self.char_width <= u32::MAX,
                    start_y + self.char_height <= u32::MAX,
                    target@.width == before.width == target_width,
                    target@.height == before.height == target_height,
                    target@.wf(),
                    forall|px: int, py: int|
                        before.contains(px, py) ==> #[trigger] target@.pixel(px, py) == (if start_x
                            <= px < start_x + self.char_width && (start_y <= py < start_y + y || (py
                            == start_y + y && px < start_x + x)) {
                            toned(char_img@.pixel(px - start_x, py - start_y), invert)
                        } else {
                            before.pixel(px, py)
                        }),
                decreases self.char_width - x,
            {
                if start_x + x < target_width && start_y + y < target_height {
                    let value = char_img.get_pixel(x, y);
                    let drawn: u8 = if invert {
                        255 - value
                    } else {
                        value
                    };
                    target.put_pixel(start_x + x, start_y + y, drawn);
                }
                x = x + 1;
            }
            y = y + 1;
        }
    }

    /// Converts a grid to text: rows of `width` characters, separated by line
    /// breaks.
    pub fn individual_to_string(&self, individual: &Individual, width: u32) -> (text: String)
        ensures
            text@ == grid_text(individual.chars@, width as nat, individual.chars@.len() as int),
    {
        let mut result = String::new();
        let mut i: usize = 0;
        while i < individual.chars.len()
            invariant
                i <= individual.chars@.len(),
                result@ == grid_text(individual.chars@, width as nat, i as int),
            decreases individual.chars@.len() - i,
        {
            if i > 0 && width > 0 && (i as u64) % (width as u64) == 0 {
                result.push('\n');
            }
            result.push(individual.chars[i] as char);
            i = i + 1;
        }
        result
    }

    /// Width and height of a character cell in pixels.
    pub fn char_dimensions(&self) -> (d: (u32, u32))
        ensures
            d.0 == self.spec_char_width(),
            d.1 == self.spec_char_height(),
    {
        (self.char_width, self.char_height)
    }

    /// Number of cached glyphs.
    pub fn cached_glyph_count(&self) -> (count: usize)
        ensures
            count == self.glyph_count(),
    {
        self.char_cache.len()
    }

    /// The cached glyph of a character code, if it has one.
    pub fn cached_glyph(&self, code: u8) -> (r: Option<&GrayImage>)
        ensures
            r is Some <==> self.has_glyph(code),
            r is Some ==> r->0@ == self.glyph(code),
    {
        self.char_cache.get(&code)
    }
}

/// A bitmap of the given size filled with the background intensity.
fn filled_image(width: u32, height: u32, white_background: bool) -> (img: GrayImage)
    requires
        width * height <= isize::MAX,
    ensures
        img@ == Bitmap::uniform(width as nat, height as nat, background_tone(white_background)),
        img@.wf(),
{
    let mut img = GrayImage::new(width, height);
    proof {
        lemma_uniform_pixels(width as nat, height as nat, 0);
    }
    if white_background {
        let mut y: u32 = 0;
        while y < height
            invariant
                y <= height,
                img@.width == width,
                img@.height == height,
                img@.wf(),
                forall|px: int, py: int|
                    img@.contains(px, py) ==> #[trigger] img@.pixel(px, py) == (if py < y {
                        255u8
                    } else {
                        0u8
                    }),
            decreases height - y,
        {
            let mut x: u32 = 0;
            while x < width
                invariant
                    y < height,
                    x <= width,
                    img@.width == width,
                    img@.height == height,
                    img@.wf(),
                    forall|px: int, py: int|
                        img@.contains(px, py) ==> #[trigger] img@.pixel(px, py) == (if py < y || (py
                            == y && px < x) {
                            255u8
                        } else {
                            0u8
                        }),
                decreases width - x,
            {
                img.put_pixel(x, y, 255);
                x = x + 1;
            }
            y = y + 1;
        }
        proof {
            let goal = Bitmap::uniform(width as nat, height as nat, 255);
            assert forall|k: int| 0 <= k < img@.pixels.len() implies img@.pixels[k] == 255u8 by {
                lemma_pixel_of_index(k, width as int, height as int);
                assert(img@.contains(k % width as int, k / width as int));
                assert(img@.pixel(k % width as int, k / width as int) == img@.pixels[k]);
            }
            assert(img@.pixels =~= goal.pixels);
        }
    }
    img
}

/// Every pixel of a uniform bitmap has the bitmap's intensity.
pub proof fn lemma_uniform_pixels(width: nat, height: nat, value: u8)
    ensures
        Bitmap::uniform(width, height, value).wf(),
        forall|x: int, y: int|
            Bitmap::uniform(width, height, value).contains(x, y) ==> #[trigger] Bitmap::uniform(
                width,
                height,
                value,
            ).pixel(x, y) == value,
{
    assert forall|x: int, y: int|
        Bitmap::uniform(width, height, value).contains(x, y) implies #[trigger] Bitmap::uniform(
        width,
        height,
        value,
    ).pixel(x, y) == value by {
        lemma_index_in_range(width, height, x, y);
    }
}

/// The product of two 32-bit numbers fits in 64 bits.
pub proof fn lemma_product_bound(a: int, b: int)
    requires
        0 <= a <= u32::MAX,
        0 <= b <= u32::MAX,
    ensures
        0 <= a * b <= u64::MAX,
{
    assert(0 <= a * b <= u32::MAX * u32::MAX) by (nonlinear_arith)
        requires
            0 <= a <= u32::MAX,
            0 <= b <= u32::MAX,
    ;
}

/// Row-major index `k` of a `width x height` raster belongs to the pixel
/// `(k % width, k / width)`.
pub proof fn lemma_pixel_of_index(k: int, width: int, height: int)
    requires
        0 <= k < width * height,
        0 <= width,
        0 <= height,
    ensures
        0 <= k % width < width,
        0 <= k / width < height,
        (k / width) * width + k % width == k,
{
    assert(width > 0) by (nonlinear_arith)
        requires
            0 <= k < width * height,
            0 <= width,
    ;
    lemma_fundamental_div_mod(k, width);
    let q = k / width;
    let r = k % width;
    assert(width * q == q * width) by (nonlinear_arith);
    assert(0 <= q < height) by (nonlinear_arith)
        requires
            k == q * width + r,
            0 <= r < width,
            0 <= k < width * height,
    ;
}

/// Cell number `i` of a grid `width` cells wide sits in column `i % width` of
/// row `i / width`.
pub proof fn lemma_cell_position(i: int, width: int, height: int)
    requires
        0 <= i < width * height,
        0 <= width,
        0 <= height,
    ensures
        width > 0,
        0 <= i % width < width,
        0 <= i / width < height,
        (i / width) * width + i % width == i,
{
    lemma_pixel_of_index(i, width, height);
}

/// A pixel lies in the rectangle of cell `(col, row)` exactly when it belongs
/// to cell number `row * width + col`; its place within the cell is then the
/// remainder of its coordinates.
pub proof fn lemma_cell_of_pixel(
    x: int,
    y: int,
    cell_width: int,
    cell_height: int,
    width: int,
    col: int,
    row: int,
)
    requires
        0 <= x < width * cell_width,
        0 <= y,
        0 <= cell_width,
        0 <= cell_height,
        0 <= col < width,
        0 <= row,
    ensures
        cell_width > 0,
        cell_height > 0 ==> ((col * cell_width <= x < col * cell_width + cell_width && row
            * cell_height <= y < row * cell_height + cell_height) <==> (y / cell_height) * width + x
            / cell_width == row * width + col),
        cell_height > 0 && (y / cell_height) * width + x / cell_width == row * width + col ==> x
            % cell_width == x - col * cell_width && y % cell_height == y - row * cell_height,
{
    assert(cell_width > 0) by (nonlinear_arith)
        requires
            0 <= x < width * cell_width,
            0 <= cell_width,
    ;
    if cell_height > 0 {
        lemma_fundamental_div_mod(x, cell_width);
        lemma_fundamental_div_mod(y, cell_height);
        let qx = x / cell_width;
        let qy = y / cell_height;
        assert(cell_width * qx == qx * cell_width) by (nonlinear_arith);
        assert(cell_height * qy == qy * cell_height) by (nonlinear_arith);
        assert(0 <= qx < width) by (nonlinear_arith)
            requires
                x == qx * cell_width + x % cell_width,
                0 <= x % cell_width < cell_width,
                0 <= x < width * cell_width,
        ;
        assert(0 <= qy) by (nonlinear_arith)
            requires
                y == qy * cell_height + y % cell_height,
                0 <= y % cell_height < cell_height,
                0 <= y,
        ;
        if col * cell_width <= x < col * cell_width + cell_width && row * cell_height <= y < row
            * cell_height + cell_height {
            lemma_fundamental_div_mod_converse(x, cell_width, col, x - col * cell_width);
            lemma_fundamental_div_mod_converse(y, cell_height, row, y - row * cell_height);
        }
        if qy * width + qx == row * width + col {
            crate::raster::lemma_index_injective(width as nat, qx, qy, col, row);
        }
    }
}

/// A pixel of the rendering of a `width x height` grid belongs to one of the
/// grid's cells.
pub proof fn lemma_cell_in_grid(
    x: int,
    y: int,
    cell_width: int,
    cell_height: int,
    width: int,
    height: int,
)
    requires
        0 <= x < width * cell_width,
        0 <= y < height * cell_height,
        0 <= cell_width,
        0 <= cell_height,
        0 <= width,
        0 <= height,
    ensures
        0 <= (y / cell_height) * width + x / cell_width < width * height,
{
    assert(cell_width > 0 && cell_height > 0) by (nonlinear_arith)
        requires
            0 <= x < width * cell_width,
            0 <= y < height * cell_height,
            0 <= cell_width,
            0 <= cell_height,
    ;
    lemma_fundamental_div_mod(x, cell_width);
    lemma_fundamental_div_mod(y, cell_height);
    let qx = x / cell_width;
    let qy = y / cell_height;
    assert(0 <= qx < width) by (nonlinear_arith)
        requires
            x == cell_width * qx + x % cell_width,
            0 <= x % cell_width < cell_width,
            0 <= x < width * cell_width,
    ;
    assert(0 <= qy < height) by (nonlinear_arith)
        requires
            y == cell_height * qy + y % cell_height,
            0 <= y % cell_height < cell_height,
            0 <= y < height * cell_height,
    ;
    lemma_index_in_range(width as nat, height as nat, qx, qy);
}

/// A rendered glyph has the size of the cell and one intensity per pixel.
pub proof fn lemma_rendered_shape(width: nat, height: nat, samples: Seq<CoverageSample>)
    ensures
        rendered(width, height, samples).width == width,
        rendered(width, height, samples).height == height,
        rendered(width, height, samples).wf(),
    decreases samples.len(),
{
    if samples.len() > 0 {
        lemma_rendered_shape(width, height, samples.drop_last());
        let sample = samples.last();
        if sample_lands(sample, width, height) {
            lemma_index_in_range(width, height, sample.x as int, sample.y as int);
        }
    }
}

} // verus!
