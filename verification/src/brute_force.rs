//! Exhaustive per-cell search: every cell gets the character whose glyph
//! best matches the target pixels beneath it.
use vstd::prelude::*;
use crate::ascii_generator::AsciiGenerator;
use crate::genetic_algorithm::{
    alphabet, in_alphabet, lemma_background_in_alphabet, Individual, ALLOWED_CHARS, BACKGROUND,
};
use crate::raster::{Bitmap, GrayImage};
use crate::ratio::{lemma_gt_ge_transitive, Ratio};
use crate::scoring::{
    background_threshold, count_foreground, evaluate_grid, foreground_count,
    foreground_pred, grid_fitness, lemma_count_region_none, lemma_count_region_positive,
    lemma_foreground_bound, overlap, relevant_pred, score_ratio, score_to_ratio, tally_of,
    tally_region, threshold_for, MAX_TARGET_PIXELS,
};

verus! {

/// Penalty, in thousandths of a point, for each background pixel that a
/// candidate lights up: the brute-force search charges half a hundredth of a
/// point, in single cells and for the whole grid alike.
pub const BRUTE_FORCE_PENALTY: u64 = 5;

/// What the search reports after each decided cell.
#[derive(Debug)]
pub struct PositionReport {
    /// Number of cells decided so far.
    pub position: u32,
    /// Number of cells of the grid.
    pub total_positions: u32,
    /// Grid width in characters.
    pub width: u32,
    /// Grid height in characters.
    pub height: u32,
    /// The grid so far as text, when previews were asked for.
    pub ascii_art: Option<String>,
}

/// The callback never asks to stop: there is none, or it answers `true` to
/// every report.
pub open spec fn never_stops<F: FnMut(PositionReport) -> bool>(callback: Option<F>) -> bool {
    callback is None || forall|report: PositionReport, go: bool|
        call_ensures(callback->0, (report,), go) ==> go
}

/// Fitness of one character in one cell: the character's glyph is compared
/// with the target pixels beneath the cell, and the score is taken as a
/// fraction of the foreground pixels among them. Where the cell has no
/// foreground pixel, the background glyph scores 1 and every other character
/// 0.
pub open spec fn cell_fitness(
    generator: &AsciiGenerator,
    target: Bitmap,
    threshold: u8,
    white_background: bool,
    row: nat,
    col: nat,
    code: u8,
) -> Ratio {
    let cell = generator.composed(seq![code], 1, 1, white_background);
    let tally = tally_of(
        cell,
        target,
        col * generator.spec_char_width(),
        row * generator.spec_char_height(),
        threshold,
        white_background,
    );
    if tally.0 > 0 {
        score_ratio(tally.1, tally.2, tally.0, BRUTE_FORCE_PENALTY as nat)
    } else if code == BACKGROUND {
        Ratio { num: 1, den: 1 }
    } else {
        Ratio { num: 0, den: 1 }
    }
}

/// The best character for a cell among the first `count` characters of the
/// alphabet, with its fitness. The search starts from the background glyph
/// at fitness 0, and a character replaces the best so far only when it scores
/// strictly higher.
pub open spec fn best_among(
    generator: &AsciiGenerator,
    target: Bitmap,
    threshold: u8,
    white_background: bool,
    row: nat,
    col: nat,
    count: int,
) -> (u8, Ratio)
    decreases count,
{
    if count <= 0 {
        (BACKGROUND, Ratio { num: 0, den: 1 })
    } else {
        let before = best_among(generator, target, threshold, white_background, row, col, count - 1);
        let code = alphabet()[count - 1];
        let fitness = cell_fitness(generator, target, threshold, white_background, row, col, code);
        if fitness.spec_gt(before.1) {
            (code, fitness)
        } else {
            before
        }
    }
}

/// The fitness of a character in a cell lies in `[0, 1]`.
pub proof fn lemma_cell_fitness_in_unit(
    generator: &AsciiGenerator,
    target: Bitmap,
    threshold: u8,
    white_background: bool,
    row: nat,
    col: nat,
    code: u8,
)
    requires
        target.width * target.height <= MAX_TARGET_PIXELS,
    ensures
        cell_fitness(generator, target, threshold, white_background, row, col, code).in_unit(),
{
    let cell = generator.composed(seq![code], 1, 1, white_background);
    let left = col * generator.spec_char_width();
    let top = row * generator.spec_char_height();
    crate::scoring::lemma_tally_bounds(cell, target, left, top, threshold, white_background);
    let tally = tally_of(cell, target, left, top, threshold, white_background);
    if tally.0 > 0 {
        assert(1000 * tally.1 <= 1000 * tally.0 <= 1000 * MAX_TARGET_PIXELS);
        assert(BRUTE_FORCE_PENALTY * tally.2 >= 0) by (nonlinear_arith)
            requires
                tally.2 >= 0,
        ;
    }
}

/// What the search for a cell's character finds among the first `count`
/// characters of the alphabet: a character at least as fit as each of them;
/// either none of them scores above zero and the choice is the background
/// glyph, or the choice is the first of them that reaches the highest
/// fitness.
pub proof fn lemma_best_among_is_first_maximum(
    generator: &AsciiGenerator,
    target: Bitmap,
    threshold: u8,
    white_background: bool,
    row: nat,
    col: nat,
    count: int,
)
    requires
        0 <= count <= alphabet().len(),
        target.width * target.height <= MAX_TARGET_PIXELS,
    ensures
        ({
            let best = best_among(generator, target, threshold, white_background, row, col, count);
            let fitness = |code: u8|
                cell_fitness(generator, target, threshold, white_background, row, col, code);
            &&& best.1.in_unit()
            &&& in_alphabet(best.0)
            &&& forall|j: int| 0 <= j < count ==> best.1.spec_ge(fitness(#[trigger] alphabet()[j]))
            &&& {
                ||| best == (BACKGROUND, Ratio { num: 0, den: 1 })
                ||| exists|k: int|
                    {
                        &&& 0 <= k < count
                        &&& best.0 == #[trigger] alphabet()[k]
                        &&& best.1 == fitness(alphabet()[k])
                        &&& forall|j: int| 0 <= j < k ==> best.1.spec_gt(fitness(#[trigger] alphabet()[j]))
                    }
            }
        }),
    decreases count,
{
    let fitness = |code: u8|
        cell_fitness(generator, target, threshold, white_background, row, col, code);
    lemma_background_in_alphabet();
    if count > 0 {
        lemma_best_among_is_first_maximum(
            generator,
            target,
            threshold,
            white_background,
            row,
            col,
            count - 1,
        );
        let before = best_among(generator, target, threshold, white_background, row, col, count - 1);
        let best = best_among(generator, target, threshold, white_background, row, col, count);
        let code = alphabet()[count - 1];
        let new_fitness = fitness(code);
        lemma_cell_fitness_in_unit(generator, target, threshold, white_background, row, col, code);
        if new_fitness.spec_gt(before.1) {
            assert forall|j: int| 0 <= j < count implies best.1.spec_ge(
                fitness(#[trigger] alphabet()[j]),
            ) by {
                if j < count - 1 {
                    lemma_gt_ge_transitive(new_fitness, before.1, fitness(alphabet()[j]));
                }
            }
            assert forall|j: int| 0 <= j < count - 1 implies best.1.spec_gt(
                fitness(#[trigger] alphabet()[j]),
            ) by {
                lemma_gt_ge_transitive(new_fitness, before.1, fitness(alphabet()[j]));
            }
            assert(best.0 == alphabet()[count - 1]);
        } else {
            assert(best == before);
            assert(before.1.spec_ge(new_fitness));
        }
    }
}

/// Against a target without foreground pixels, the background glyph scores 1
/// in every cell and every other character 0.
pub proof fn lemma_blank_target_cell_fitness(
    generator: &AsciiGenerator,
    target: Bitmap,
    threshold: u8,
    white_background: bool,
    row: nat,
    col: nat,
    code: u8,
)
    requires
        foreground_count(target, threshold, white_background) == 0,
    ensures
        cell_fitness(generator, target, threshold, white_background, row, col, code) == (if code
            == BACKGROUND {
            Ratio { num: 1, den: 1 }
        } else {
            Ratio { num: 0, den: 1 }
        }),
{
    let cell = generator.composed(seq![code], 1, 1, white_background);
    let left = col * generator.spec_char_width();
    let top = row * generator.spec_char_height();
    let w = overlap(cell.width, target.width, left);
    let h = overlap(cell.height, target.height, top);
    let relevant = relevant_pred(target, left, top, threshold, white_background);
    let foreground = foreground_pred(target, threshold, white_background);
    assert forall|x: int, y: int| 0 <= x < w && 0 <= y < h implies !#[trigger] relevant(x, y) by {
        if relevant(x, y) {
            assert(foreground(x + left, y + top));
            lemma_count_region_positive(
                foreground,
                target.width as int,
                target.height as int,
                x + left,
                y + top,
            );
        }
    }
    lemma_count_region_none(relevant, w, h);
}

/// Against a target without foreground pixels, the search chooses the
/// background glyph, whatever part of the alphabet it has tried.
pub proof fn lemma_blank_target_best_among(
    generator: &AsciiGenerator,
    target: Bitmap,
    threshold: u8,
    white_background: bool,
    row: nat,
    col: nat,
    count: int,
)
    requires
        foreground_count(target, threshold, white_background) == 0,
        0 <= count <= alphabet().len(),
    ensures
        best_among(generator, target, threshold, white_background, row, col, count).0 == BACKGROUND,
        count > 0 ==> best_among(generator, target, threshold, white_background, row, col, count).1
            == (Ratio { num: 1, den: 1 }),
    decreases count,
{
    lemma_background_in_alphabet();
    if count > 0 {
        lemma_blank_target_best_among(
            generator,
            target,
            threshold,
            white_background,
            row,
            col,
            count - 1,
        );
        let code = alphabet()[count - 1];
        lemma_blank_target_cell_fitness(
            generator,
            target,
            threshold,
            white_background,
            row,
            col,
            code,
        );
        let before = best_among(generator, target, threshold, white_background, row, col, count - 1);
        let fitness = cell_fitness(generator, target, threshold, white_background, row, col, code);
        let one = Ratio { num: 1, den: 1 };
        let zero = Ratio { num: 0, den: 1 };
        crate::ratio::lemma_zero_and_one();
        if count == 1 {
            assert(before == (BACKGROUND, zero));
            assert(code == BACKGROUND);
            assert(fitness == one);
            assert(one.spec_gt(zero));
        } else {
            assert(before == (BACKGROUND, one));
            assert(!one.spec_gt(one));
            assert(!zero.spec_gt(one));
        }
    }
}

/// The mathematical model of a [`BruteForceGenerator`].
pub struct SearchView {
    pub width: nat,
    pub height: nat,
    pub target: Bitmap,
    pub total_non_background_pixels: nat,
    pub background_threshold: u8,
    pub white_background: bool,
}

/// Finds, cell by cell, the character that best matches the target.
pub struct BruteForceGenerator<'a> {
    width: u32,
    height: u32,
    ascii_generator: &'a AsciiGenerator,
    target_image: &'a GrayImage,
    total_non_background_pixels: u64,
    background_threshold: u8,
    white_background: bool,
}

impl<'a> View for BruteForceGenerator<'a> {
    type V = SearchView;

    closed spec fn view(&self) -> SearchView {
        SearchView {
            width: self.width as nat,
            height: self.height as nat,
            target: self.target_image@,
            total_non_background_pixels: self.total_non_background_pixels as nat,
            background_threshold: self.background_threshold,
            white_background: self.white_background,
        }
    }
}

impl<'a> BruteForceGenerator<'a> {
    /// The renderer that the search evaluates with.
    pub closed spec fn generator(&self) -> &AsciiGenerator {
        self.ascii_generator
    }

    /// The search's invariant: grid and target have workable sizes and the
    /// background statistics are those of the target.
    pub open spec fn wf(&self) -> bool {
        let v = self@;
        &&& self.generator().wf()
        &&& self.generator().can_compose(v.width, v.height)
        &&& v.width * v.height <= u32::MAX
        &&& v.target.width * v.target.height <= MAX_TARGET_PIXELS
        &&& v.background_threshold == threshold_for(v.white_background)
        &&& v.total_non_background_pixels == foreground_count(
            v.target,
            v.background_threshold,
            v.white_background,
        )
    }

    /// Fitness of `code` in the cell at `(row, col)`.
    pub open spec fn fitness_at(&self, row: nat, col: nat, code: u8) -> Ratio {
        cell_fitness(
            self.generator(),
            self@.target,
            self@.background_threshold,
            self@.white_background,
            row,
            col,
            code,
        )
    }

    /// The character chosen for the cell at `(row, col)`.
    pub open spec fn best_char(&self, row: nat, col: nat) -> u8 {
        best_among(
            self.generator(),
            self@.target,
            self@.background_threshold,
            self@.white_background,
            row,
            col,
            alphabet().len() as int,
        ).0
    }

    /// The grid in which the first `done` cells, row by row, hold their
    /// chosen character and the others the background glyph.
    pub open spec fn solution_prefix(&self, done: int) -> Seq<u8> {
        Seq::new(
            self@.width * self@.height,
            |p: int|
                if p < done {
                    self.best_char((p / self@.width as int) as nat, (p % self@.width as int) as nat)
                } else {
                    BACKGROUND
                },
        )
    }

    /// The grid in which every cell holds its chosen character.
    pub open spec fn solution(&self) -> Seq<u8> {
        self.solution_prefix((self@.width * self@.height) as int)
    }

    /// Fitness of a whole grid against the search's target.
    pub open spec fn fitness_of(&self, chars: Seq<u8>) -> Ratio {
        grid_fitness(
            self.generator(),
            chars,
            self@.width,
            self@.height,
            self@.target,
            self@.total_non_background_pixels,
            self@.background_threshold,
            self@.white_background,
            BRUTE_FORCE_PENALTY as nat,
        )
    }

    /// Creates a search for a `width x height` grid against the target.
    pub fn new(
        width: u32,
        height: u32,
        ascii_generator: &'a AsciiGenerator,
        target_image: &'a GrayImage,
        white_background: bool,
    ) -> (search: BruteForceGenerator<'a>)
        requires
            ascii_generator.wf(),
            ascii_generator.can_compose(width as nat, height as nat),
            width * height <= u32::MAX,
            target_image@.width * target_image@.height <= MAX_TARGET_PIXELS,
        ensures
            search.wf(),
            search.generator() == ascii_generator,
            search@.width == width,
            search@.height == height,
            search@.target == target_image@,
            search@.white_background == white_background,
    {
        let background_threshold = background_threshold(white_background);
        let total_non_background_pixels = Self::count_non_background_pixels(
            target_image,
            background_threshold,
            white_background,
        );
        BruteForceGenerator {
            width,
            height,
            ascii_generator,
            target_image,
            total_non_background_pixels,
            background_threshold,
            white_background,
        }
    }

    /// Counts the target pixels that are not background: those above the
    /// threshold when glyphs are light on dark, those below it when they are
    /// dark on light.
    pub fn count_non_background_pixels(
        target_image: &GrayImage,
        background_threshold: u8,
        white_background: bool,
    ) -> (count: u64)
        ensures
            count == foreground_count(target_image@, background_threshold, white_background),
            count <= target_image@.width * target_image@.height,
    {
        count_foreground(target_image, background_threshold, white_background)
    }

    /// Grid width in characters.
    pub fn width(&self) -> (w: u32)
        ensures
            w == self@.width,
    {
        self.width
    }

    /// Grid height in characters.
    pub fn height(&self) -> (h: u32)
        ensures
            h == self@.height,
    {
        self.height
    }

    /// The intensity that separates background from foreground.
    pub fn background_threshold(&self) -> (threshold: u8)
        ensures
            threshold == self@.background_threshold,
    {
        self.background_threshold
    }

    /// Number of foreground pixels of the target.
    pub fn total_non_background_pixels(&self) -> (count: u64)
        ensures
            count == self@.total_non_background_pixels,
    {
        self.total_non_background_pixels
    }

    /// Fitness of `test_char` in the cell at `(row, col)`: its glyph against
    /// the target pixels beneath the cell.
    pub fn calculate_fitness_for_position(&self, row: u32, col: u32, test_char: u8) -> (fitness:
        Ratio)
        requires
            self.wf(),
            col * self.generator().spec_char_width() <= u32::MAX,
            row * self.generator().spec_char_height() <= u32::MAX,
        ensures
            fitness == self.fitness_at(row as nat, col as nat, test_char),
            fitness.in_unit(),
    {
        let mut single_char_chars: Vec<u8> = Vec::new();
        single_char_chars.push(test_char);
        assert(single_char_chars@ =~= seq![test_char]);
        let (char_width, char_height) = self.ascii_generator.char_dimensions();
        proof {
            assert(1 * char_width == char_width) by (nonlinear_arith);
            assert(1 * char_height == char_height) by (nonlinear_arith);
        }
        let single_char_image = self.ascii_generator.generate_ascii_image_with_background(
            single_char_chars.as_slice(),
            1,
            1,
            self.white_background,
        );
        let start_x: u32 = col * char_width;
        let start_y: u32 = row * char_height;
        let tally = tally_region(
            &single_char_image,
            self.target_image,
            start_x,
            start_y,
            self.background_threshold,
            self.white_background,
        );
        if tally.relevant > 0 {
            score_to_ratio(tally.matches, tally.false_positives, tally.relevant, BRUTE_FORCE_PENALTY)
        } else if test_char == BACKGROUND {
            Ratio::one()
        } else {
            Ratio::zero()
        }
    }

    /// Finds the best character for the cell at `(row, col)` by trying every
    /// allowed character in alphabet order; of equally good characters the
    /// first wins. Cells are scored independently, so the grid decided so far
    /// does not influence the choice.
    pub fn find_best_char_for_position(
        &self,
        row: u32,
        col: u32,
        current_chars: &[u8],
        position: usize,
    ) -> (best_char: u8)
        requires
            self.wf(),
            col * self.generator().spec_char_width() <= u32::MAX,
            row * self.generator().spec_char_height() <= u32::MAX,
        ensures
            best_char == self.best_char(row as nat, col as nat),
            in_alphabet(best_char),
    {
        let mut best_char: u8 = BACKGROUND;
        let mut best_fitness = Ratio::zero();
        let mut i: usize = 0;
        proof {
            lemma_background_in_alphabet();
        }
        while i < ALLOWED_CHARS.len()
            invariant
                self.wf(),
                col * self.generator().spec_char_width() <= u32::MAX,
                row * self.generator().spec_char_height() <= u32::MAX,
                i <= alphabet().len(),
                in_alphabet(best_char),
                (best_char, best_fitness) == best_among(
                    self.generator(),
                    self@.target,
                    self@.background_threshold,
                    self@.white_background,
                    row as nat,
                    col as nat,
                    i as int,
                ),
            decreases alphabet().len() - i,
        {
            let test_char = ALLOWED_CHARS[i];
            assert(alphabet()[i as int] == test_char);
            let fitness = self.calculate_fitness_for_position(row, col, test_char);
            if fitness.gt(&best_fitness) {
                best_fitness = fitness;
                best_char = test_char;
            }
            i = i + 1;
        }
        best_char
    }

    /// Runs the search over all cells, row by row. After each decided cell
    /// the callback, if there is one, is told how far the search has come; when
    /// it answers `false` the search stops and the cells not yet decided keep
    /// the background glyph. Returns the grid, with the fitness of the whole
    /// grid, and the number of cells decided.
    pub fn generate<F: FnMut(PositionReport) -> bool>(
        &self,
        verbose: bool,
        progress_callback: Option<F>,
    ) -> (result: (Individual, u32))
        requires
            self.wf(),
            progress_callback is Some ==> forall|report: PositionReport|
                call_requires(progress_callback->0, (report,)),
        ensures
            result.0.chars@ == self.solution_prefix(result.1 as int),
            result.1 <= self@.width * self@.height,
            self@.width * self@.height > 0 ==> result.1 > 0,
            never_stops(progress_callback) ==> result.1 == self@.width * self@.height
                && result.0.chars@ == self.solution(),
            result.0.chars@.len() == self@.width * self@.height,
            result.0.fitness == self.fitness_of(result.0.chars@),
            result.0.fitness.in_unit(),
    {
        let mut callback_slot = progress_callback;
        let total_positions: u32 = self.width * self.height;
        let mut best_chars: Vec<u8> = Vec::new();
        let mut filled: u32 = 0;
        while filled < total_positions
            invariant
                filled <= total_positions,
                best_chars@.len() == filled,
                forall|p: int| 0 <= p < filled ==> best_chars@[p] == BACKGROUND,
            decreases total_positions - filled,
        {
            best_chars.push(BACKGROUND);
            filled = filled + 1;
        }
        assert(best_chars@ =~= self.solution_prefix(0));
        let mut position: u32 = 0;
        let mut stopped = false;
        while position < total_positions && !stopped
            invariant
                self.wf(),
                total_positions == self@.width * self@.height,
                position <= total_positions,
                best_chars@ == self.solution_prefix(position as int),
                callback_slot is None ==> !stopped,
                callback_slot == progress_callback,
                stopped ==> position > 0,
                never_stops(progress_callback) ==> !stopped,
                callback_slot is Some ==> forall|report: PositionReport|
                    call_requires(callback_slot->0, (report,)),
            decreases total_positions - position, if stopped { 0int } else { 1int },
        {
            proof {
                crate::ascii_generator::lemma_cell_position(
                    position as int,
                    self.width as int,
                    self.height as int,
                );
            }
            let row: u32 = position / self.width;
            let col: u32 = position % self.width;
            proof {
                assert(col * self.generator().spec_char_width() <= self@.width
                    * self.generator().spec_char_width()) by (nonlinear_arith)
                    requires
                        0 <= col < self@.width,
                ;
                assert(row * self.generator().spec_char_height() <= self@.height
                    * self.generator().spec_char_height()) by (nonlinear_arith)
                    requires
                        0 <= row < self@.height,
                ;
            }
            let best_char = self.find_best_char_for_position(
                row,
                col,
                best_chars.as_slice(),
                position as usize,
            );
            best_chars.set(position as usize, best_char);
            position = position + 1;
            assert(best_chars@ =~= self.solution_prefix(position as int));
            match &mut callback_slot {
                Some(callback) => {
                    let ascii_art = if verbose {
                        let so_far = Individual::new(best_chars.clone());
                        Some(self.ascii_generator.individual_to_string(&so_far, self.width))
                    } else {
                        None
                    };
                    let should_continue = callback(
                        PositionReport {
                            position,
                            total_positions,
                            width: self.width,
                            height: self.height,
                            ascii_art,
                        },
                    );
                    if !should_continue {
                        stopped = true;
                    }
                },
                None => {},
            }
        }
        let mut result = Individual::new(best_chars);
        let final_fitness = self.calculate_fitness(&result);
        result.fitness = final_fitness;
        (result, position)
    }

    /// Fitness of a whole grid, as the genetic search computes it but with
    /// this search's penalty.
    pub fn calculate_fitness(&self, individual: &Individual) -> (fitness: Ratio)
        requires
            self.wf(),
        ensures
            fitness == self.fitness_of(individual.chars@),
            fitness.in_unit(),
    {
        proof {
            lemma_foreground_bound(
                self.target_image@,
                self.background_threshold,
                self.white_background,
            );
        }
        evaluate_grid(
            individual.chars.as_slice(),
            self.ascii_generator,
            self.target_image,
            self.width,
            self.height,
            self.total_non_background_pixels,
            self.background_threshold,
            self.white_background,
            BRUTE_FORCE_PENALTY,
        )
    }
}

/// The choice for a cell is the first character of the alphabet that
/// reaches the highest fitness in that cell.
pub proof fn lemma_choice_is_first_fittest(search: &BruteForceGenerator, row: nat, col: nat)
    requires
        search.wf(),
    ensures
        exists|k: int|
            {
                &&& 0 <= k < alphabet().len()
                &&& search.best_char(row, col) == #[trigger] alphabet()[k]
                &&& forall|j: int|
                    0 <= j < alphabet().len() ==> search.fitness_at(row, col, alphabet()[k]).spec_ge(
                        search.fitness_at(row, col, #[trigger] alphabet()[j]),
                    )
                &&& forall|j: int|
                    0 <= j < k ==> search.fitness_at(row, col, alphabet()[k]).spec_gt(
                        search.fitness_at(row, col, #[trigger] alphabet()[j]),
                    )
            },
{
    let generator = search.generator();
    let target = search@.target;
    let threshold = search@.background_threshold;
    let white = search@.white_background;
    let count = alphabet().len() as int;
    lemma_background_in_alphabet();
    lemma_best_among_is_first_maximum(generator, target, threshold, white, row, col, count);
    let best = best_among(generator, target, threshold, white, row, col, count);
    let fitness = |code: u8| cell_fitness(generator, target, threshold, white, row, col, code);
    if exists|k: int|
        {
            &&& 0 <= k < count
            &&& best.0 == #[trigger] alphabet()[k]
            &&& best.1 == fitness(alphabet()[k])
            &&& forall|j: int| 0 <= j < k ==> best.1.spec_gt(fitness(#[trigger] alphabet()[j]))
        } {
        let k = choose|k: int|
            {
                &&& 0 <= k < count
                &&& best.0 == #[trigger] alphabet()[k]
                &&& best.1 == fitness(alphabet()[k])
                &&& forall|j: int| 0 <= j < k ==> best.1.spec_gt(fitness(#[trigger] alphabet()[j]))
            };
        assert(search.best_char(row, col) == alphabet()[k]);
        assert forall|j: int| 0 <= j < alphabet().len() implies search.fitness_at(
            row,
            col,
            alphabet()[k],
        ).spec_ge(search.fitness_at(row, col, #[trigger] alphabet()[j])) by {
            assert(best.1.spec_ge(fitness(alphabet()[j])));
        }
        assert forall|j: int| 0 <= j < k implies search.fitness_at(row, col, alphabet()[k]).spec_gt(
            search.fitness_at(row, col, #[trigger] alphabet()[j]),
        ) by {
            assert(best.1.spec_gt(fitness(alphabet()[j])));
        }
    } else {
        // nothing scores above zero: every fitness is zero
        assert(best == (BACKGROUND, Ratio { num: 0, den: 1 }));
        let own = search.fitness_at(row, col, alphabet()[0]);
        assert forall|j: int| 0 <= j < alphabet().len() implies (#[trigger] fitness(
            alphabet()[j],
        )).num == 0 by {
            let f = fitness(alphabet()[j]);
            lemma_cell_fitness_in_unit(generator, target, threshold, white, row, col, alphabet()[j]);
            assert(best.1.spec_ge(f));
            assert(f.num == 0) by (nonlinear_arith)
                requires
                    0 * f.den >= f.num * 1,
                    f.num >= 0,
            ;
        }
        assert(fitness(alphabet()[0]).num == 0);
        assert forall|j: int| 0 <= j < alphabet().len() implies own.spec_ge(
            search.fitness_at(row, col, #[trigger] alphabet()[j]),
        ) by {
            let f = fitness(alphabet()[j]);
            assert(f.num == 0);
            lemma_cell_fitness_in_unit(generator, target, threshold, white, row, col, alphabet()[j]);
            lemma_cell_fitness_in_unit(generator, target, threshold, white, row, col, alphabet()[0]);
            assert(own.num * f.den >= f.num * own.den) by (nonlinear_arith)
                requires
                    own.num == 0,
                    f.num == 0,
            ;
        }
        assert(search.best_char(row, col) == alphabet()[0]);
    }
}

/// Brute-force search on a target without foreground pixels yields the grid
/// of background glyphs.
pub proof fn lemma_blank_target_blank_grid(search: &BruteForceGenerator)
    requires
        search.wf(),
        search@.total_non_background_pixels == 0,
    ensures
        forall|row: nat, col: nat| #[trigger] search.best_char(row, col) == BACKGROUND,
        search.solution() == Seq::new(search@.width * search@.height, |p: int| BACKGROUND),
{
    assert forall|row: nat, col: nat| #[trigger] search.best_char(row, col) == BACKGROUND by {
        lemma_blank_target_best_among(
            search.generator(),
            search@.target,
            search@.background_threshold,
            search@.white_background,
            row,
            col,
            alphabet().len() as int,
        );
    }
    assert(search.solution() =~= Seq::new(search@.width * search@.height, |p: int| BACKGROUND));
}

} // verus!
