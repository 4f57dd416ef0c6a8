//! Evolutionary search for the character grid that best matches a target.
use rayon::iter::{IntoParallelRefIterator, ParallelIterator};
use vstd::prelude::*;
use crate::ascii_generator::AsciiGenerator;
use crate::chance::{flip, pick_index};
use crate::raster::{Bitmap, GrayImage};
use crate::ratio::{lemma_ge_transitive, lemma_gt_ge_transitive, Ratio};
use crate::scoring::{
    background_threshold, count_foreground, evaluate_grid, foreground_count, grid_fitness,
    lemma_foreground_bound, threshold_for, MAX_TARGET_PIXELS,
};

verus! {

/// The characters a grid may hold, in the order in which they are tried:
/// `` <>,./?\|[]{}-_=+AvViIoOxXwWM`~;:'"!@#$%^&*()8``, as character codes.
pub const ALLOWED_CHARS: [u8; 46] = [
    32, 60, 62, 44, 46, 47, 63, 92, 124, 91, 93, 123,
    125, 45, 95, 61, 43, 65, 118, 86, 105, 73, 111, 79,
    120, 88, 119, 87, 77, 96, 126, 59, 58, 39, 34, 33,
    64, 35, 36, 37, 94, 38, 42, 40, 41, 56,
];

/// The glyph without ink: the space character.
pub const BACKGROUND: u8 = 0x20;

/// The alphabet as a sequence.
pub open spec fn alphabet() -> Seq<u8> {
    ALLOWED_CHARS@
}

/// `code` is one of the allowed characters.
pub open spec fn in_alphabet(code: u8) -> bool {
    alphabet().contains(code)
}

/// The allowed characters but the background glyph, in alphabet order.
pub open spec fn non_background_alphabet() -> Seq<u8> {
    alphabet().filter(|code: u8| code != BACKGROUND)
}

/// What a freshly drawn character may be under background probability
/// `background_prob`: an allowed character, the background glyph when the
/// probability is certain and never the background glyph when it is
/// impossible.
pub open spec fn drawn_char_ok(code: u8, background_prob: Ratio) -> bool {
    &&& in_alphabet(code)
    &&& background_prob.is_certain() ==> code == BACKGROUND
    &&& background_prob.is_impossible() ==> code != BACKGROUND
}

/// The background glyph is an allowed character.
pub proof fn lemma_background_in_alphabet()
    ensures
        in_alphabet(BACKGROUND),
        alphabet().len() == 46,
        alphabet()[0] == BACKGROUND,
{
    assert(alphabet()[0] == BACKGROUND);
}

/// Whether `code` is one of the allowed characters.
pub fn is_allowed(code: u8) -> (allowed: bool)
    ensures
        allowed == in_alphabet(code),
{
    let mut i: usize = 0;
    while i < ALLOWED_CHARS.len()
        invariant
            i <= alphabet().len(),
            forall|j: int| 0 <= j < i ==> alphabet()[j] != code,
        decreases alphabet().len() - i,
    {
        if ALLOWED_CHARS[i] == code {
            assert(alphabet()[i as int] == code);
            return true;
        }
        i = i + 1;
    }
    false
}

/// The allowed characters but the background glyph.
pub fn non_background_chars() -> (pool: Vec<u8>)
    ensures
        pool@ == non_background_alphabet(),
        pool@.len() > 0,
        forall|i: int| 0 <= i < pool@.len() ==> in_alphabet(#[trigger] pool@[i]) && pool@[i] != BACKGROUND,
{
    let ghost pred = |code: u8| code != BACKGROUND;
    let mut pool: Vec<u8> = Vec::new();
    let mut i: usize = 0;
    proof {
        reveal(Seq::filter);
        assert(alphabet().subrange(0, 0) =~= Seq::<u8>::empty());
    }
    while i < ALLOWED_CHARS.len()
        invariant
            i <= alphabet().len(),
            alphabet().len() == 46,
            pred == |code: u8| code != BACKGROUND,
            pool@ == alphabet().subrange(0, i as int).filter(pred),
            i >= 2 ==> pool@.len() > 0,
            forall|j: int|
                0 <= j < pool@.len() ==> in_alphabet(#[trigger] pool@[j]) && pool@[j] != BACKGROUND,
        decreases alphabet().len() - i,
    {
        let code = ALLOWED_CHARS[i];
        proof {
            reveal(Seq::filter);
            assert(alphabet().subrange(0, i + 1).drop_last() =~= alphabet().subrange(0, i as int));
            assert(alphabet().subrange(0, i + 1).last() == code);
            assert(alphabet()[i as int] == code);
            assert(alphabet()[1] != BACKGROUND);
        }
        if code != BACKGROUND {
            pool.push(code);
        }
        i = i + 1;
    }
    proof {
        assert(alphabet().subrange(0, 46) =~= alphabet());
    }
    pool
}

/// A candidate grid: its characters, row by row, and its fitness.
#[derive(Debug)]
pub struct Individual {
    pub chars: Vec<u8>,
    pub fitness: Ratio,
}

/// The mathematical model of an [`Individual`].
pub struct IndividualView {
    pub chars: Seq<u8>,
    pub fitness: Ratio,
}

impl View for Individual {
    type V = IndividualView;

    open spec fn view(&self) -> IndividualView {
        IndividualView { chars: self.chars@, fitness: self.fitness }
    }
}

impl Clone for Individual {
    fn clone(&self) -> (copy: Self)
        ensures
            copy@ == self@,
    {
        let chars = self.chars.clone();
        assert(chars@ =~= self.chars@);
        Individual { chars, fitness: self.fitness }
    }
}

/// Every character is an allowed one.
pub open spec fn all_in_alphabet(chars: Seq<u8>) -> bool {
    forall|i: int| 0 <= i < chars.len() ==> in_alphabet(#[trigger] chars[i])
}

/// The first child of a uniform crossover: `a` with the positions marked in
/// `swaps` taken from `b`. Positions that `b` or `swaps` lack stay as in `a`.
pub open spec fn crossed(a: Seq<u8>, b: Seq<u8>, swaps: Seq<bool>) -> Seq<u8> {
    Seq::new(
        a.len(),
        |i: int|
            if i < b.len() && i < swaps.len() && swaps[i] {
                b[i]
            } else {
                a[i]
            },
    )
}

/// `chars` with every position replaced for which `replacements` holds a
/// character.
pub open spec fn replaced(chars: Seq<u8>, replacements: Seq<Option<u8>>) -> Seq<u8> {
    Seq::new(
        chars.len(),
        |i: int|
            if i < replacements.len() && replacements[i] is Some {
                replacements[i]->0
            } else {
                chars[i]
            },
    )
}

/// The character with which a seeded individual is filled: the seed if it is
/// an allowed character, the background glyph otherwise.
pub open spec fn seed_code(init_char: char) -> u8 {
    if init_char as u32 <= 0xFF && in_alphabet(init_char as u8) {
        init_char as u8
    } else {
        BACKGROUND
    }
}

impl Individual {
    /// Creates an individual from existing character data, not yet evaluated.
    pub fn new(chars: Vec<u8>) -> (individual: Individual)
        ensures
            individual.chars == chars,
            individual.fitness == (Ratio { num: 0, den: 1 }),
    {
        Individual { chars, fitness: Ratio::zero() }
    }

    /// Creates an individual of `size` random non-background characters.
    pub fn new_random(size: usize) -> (individual: Individual)
        ensures
            individual.chars@.len() == size,
            individual.fitness == (Ratio { num: 0, den: 1 }),
            forall|i: int|
                0 <= i < size ==> in_alphabet(#[trigger] individual.chars@[i])
                    && individual.chars@[i] != BACKGROUND,
    {
        Self::new_random_with_background_prob(size, Ratio::zero())
    }

    /// Creates an individual of `size` random characters: each is the
    /// background glyph with probability `background_prob` and otherwise a
    /// uniformly chosen other character of the alphabet.
    pub fn new_random_with_background_prob(size: usize, background_prob: Ratio) -> (individual:
        Individual)
        ensures
            individual.chars@.len() == size,
            individual.fitness == (Ratio { num: 0, den: 1 }),
            forall|i: int| 0 <= i < size ==> drawn_char_ok(#[trigger] individual.chars@[i], background_prob),
    {
        let pool = non_background_chars();
        let mut chars: Vec<u8> = Vec::new();
        let mut i: usize = 0;
        while i < size
            invariant
                i <= size,
                chars@.len() == i,
                pool@ == non_background_alphabet(),
                pool@.len() > 0,
                forall|j: int|
                    0 <= j < pool@.len() ==> in_alphabet(#[trigger] pool@[j]) && pool@[j]
                        != BACKGROUND,
                forall|j: int| 0 <= j < i ==> drawn_char_ok(#[trigger] chars@[j], background_prob),
            decreases size - i,
        {
            let code = draw_char(&pool, background_prob);
            chars.push(code);
            i = i + 1;
        }
        Individual::new(chars)
    }

    /// Creates an individual seeded with `init_char`: each position holds the
    /// seed with probability 0.95 and a uniformly chosen allowed character
    /// with probability 0.05. A seed outside the alphabet is replaced by the
    /// background glyph.
    pub fn new_with_init_char(size: usize, init_char: char) -> (individual: Individual)
        ensures
            individual.chars@.len() == size,
            individual.fitness == (Ratio { num: 0, den: 1 }),
            all_in_alphabet(individual.chars@),
    {
        let init_byte = seed_byte(init_char);
        let stray = Ratio::new(5, 100);
        let mut chars: Vec<u8> = Vec::new();
        let mut i: usize = 0;
        while i < size
            invariant
                i <= size,
                chars@.len() == i,
                in_alphabet(init_byte),
                all_in_alphabet(chars@),
            decreases size - i,
        {
            let code = if flip(stray) {
                random_allowed_char()
            } else {
                init_byte
            };
            chars.push(code);
            i = i + 1;
        }
        Individual::new(chars)
    }

    /// Uniform crossover with the swap decisions given: child one is `self`
    /// with the marked positions taken from `other`, child two is `other` with
    /// the marked positions taken from `self`.
    pub fn crossover_with(&self, other: &Individual, swaps: &[bool]) -> (children: (
        Individual,
        Individual,
    ))
        ensures
            children.0.chars@ == crossed(self.chars@, other.chars@, swaps@),
            children.1.chars@ == crossed(other.chars@, self.chars@, swaps@),
            children.0.fitness == (Ratio { num: 0, den: 1 }),
            children.1.fitness == (Ratio { num: 0, den: 1 }),
    {
        let mut child1_chars = self.chars.clone();
        let mut child2_chars = other.chars.clone();
        assert(child1_chars@ =~= self.chars@);
        assert(child2_chars@ =~= other.chars@);
        let shared: usize = if self.chars.len() < other.chars.len() {
            self.chars.len()
        } else {
            other.chars.len()
        };
        let mut i: usize = 0;
        while i < shared && i < swaps.len()
            invariant
                i <= shared,
                i <= swaps@.len(),
                shared <= self.chars@.len(),
                shared <= other.chars@.len(),
                child1_chars@.len() == self.chars@.len(),
                child2_chars@.len() == other.chars@.len(),
                forall|j: int|
                    0 <= j < self.chars@.len() ==> child1_chars@[j] == (if j < i && swaps@[j] {
                        other.chars@[j]
                    } else {
                        self.chars@[j]
                    }),
                forall|j: int|
                    0 <= j < other.chars@.len() ==> child2_chars@[j] == (if j < i && swaps@[j] {
                        self.chars@[j]
                    } else {
                        other.chars@[j]
                    }),
            decreases shared - i,
        {
            if swaps[i] {
                child1_chars[i] = other.chars[i];
                child2_chars[i] = self.chars[i];
            }
            i = i + 1;
        }
        assert(child1_chars@ =~= crossed(self.chars@, other.chars@, swaps@));
        assert(child2_chars@ =~= crossed(other.chars@, self.chars@, swaps@));
        (Individual::new(child1_chars), Individual::new(child2_chars))
    }

    /// Uniform crossover: at each position that both parents have, a coin
    /// with probability `crossover_rate` decides whether the children swap
    /// the parents' characters.
    pub fn crossover(&self, other: &Individual, crossover_rate: Ratio) -> (children: (
        Individual,
        Individual,
    ))
        ensures
            exists|swaps: Seq<bool>|
                {
                    &&& children.0.chars@ == crossed(self.chars@, other.chars@, swaps)
                    &&& children.1.chars@ == crossed(other.chars@, self.chars@, swaps)
                },
            children.0.chars@.len() == self.chars@.len(),
            children.1.chars@.len() == other.chars@.len(),
            children.0.fitness == (Ratio { num: 0, den: 1 }),
            children.1.fitness == (Ratio { num: 0, den: 1 }),
            forall|i: int|
                0 <= i < self.chars@.len() ==> #[trigger] children.0.chars@[i] == self.chars@[i] || (i
                    < other.chars@.len() && children.0.chars@[i] == other.chars@[i]),
            forall|i: int|
                0 <= i < other.chars@.len() ==> #[trigger] children.1.chars@[i] == other.chars@[i]
                    || (i < self.chars@.len() && children.1.chars@[i] == self.chars@[i]),
            crossover_rate.is_impossible() ==> children.0.chars@ == self.chars@
                && children.1.chars@ == other.chars@,
            crossover_rate.is_certain() && self.chars@.len() == other.chars@.len()
                ==> children.0.chars@ == other.chars@ && children.1.chars@ == self.chars@,
    {
        let shared: usize = if self.chars.len() < other.chars.len() {
            self.chars.len()
        } else {
            other.chars.len()
        };
        let mut swaps: Vec<bool> = Vec::new();
        let mut i: usize = 0;
        while i < shared
            invariant
                i <= shared,
                swaps@.len() == i,
                crossover_rate.is_impossible() ==> forall|j: int| 0 <= j < i ==> !swaps@[j],
                crossover_rate.is_certain() ==> forall|j: int| 0 <= j < i ==> swaps@[j],
            decreases shared - i,
        {
            swaps.push(flip(crossover_rate));
            i = i + 1;
        }
        let children = self.crossover_with(other, swaps.as_slice());
        proof {
            if crossover_rate.is_impossible() {
                assert(children.0.chars@ =~= self.chars@);
                assert(children.1.chars@ =~= other.chars@);
            }
            if crossover_rate.is_certain() && self.chars@.len() == other.chars@.len() {
                assert(children.0.chars@ =~= other.chars@);
                assert(children.1.chars@ =~= self.chars@);
            }
        }
        children
    }

    /// Replaces every position for which `replacements` holds a character.
    pub fn mutate_with(&mut self, replacements: &[Option<u8>])
        ensures
            final(self).chars@ == replaced(old(self).chars@, replacements@),
            final(self).fitness == old(self).fitness,
    {
        let mut i: usize = 0;
        while i < self.chars.len() && i < replacements.len()
            invariant
                i <= self.chars@.len(),
                i <= replacements@.len(),
                self.fitness == old(self).fitness,
                self.chars@.len() == old(self).chars@.len(),
                forall|j: int|
                    0 <= j < self.chars@.len() ==> self.chars@[j] == (if j < i && replacements@[j] is Some {
                        replacements@[j]->0
                    } else {
                        old(self).chars@[j]
                    }),
            decreases self.chars@.len() - i,
        {
            match replacements[i] {
                Some(code) => {
                    self.chars[i] = code;
                },
                None => {},
            }
            i = i + 1;
        }
        assert(self.chars@ =~= replaced(old(self).chars@, replacements@));
    }

    /// Mutates with probability `mutation_rate` per position; a mutated
    /// position gets a random non-background character.
    pub fn mutate(&mut self, mutation_rate: Ratio)
        ensures
            final(self).chars@.len() == old(self).chars@.len(),
            final(self).fitness == old(self).fitness,
            forall|i: int|
                0 <= i < old(self).chars@.len() ==> #[trigger] final(self).chars@[i] == old(self).chars@[i] || (in_alphabet(final(self).chars@[i]) && final(self).chars@[i]
                    != BACKGROUND),
            mutation_rate.is_impossible() ==> final(self).chars@ == old(self).chars@,
            mutation_rate.is_certain() ==> forall|i: int|
                0 <= i < old(self).chars@.len() ==> in_alphabet(#[trigger] final(self).chars@[i])
                    && final(self).chars@[i] != BACKGROUND,
    {
        self.mutate_with_background_prob(mutation_rate, Ratio::zero());
    }

    /// Mutates with probability `mutation_rate` per position; a mutated
    /// position gets the background glyph with probability `background_prob`
    /// and otherwise a uniformly chosen other character of the alphabet.
    pub fn mutate_with_background_prob(&mut self, mutation_rate: Ratio, background_prob: Ratio)
        ensures
            exists|replacements: Seq<Option<u8>>|
                final(self).chars@ == replaced(old(self).chars@, replacements),
            final(self).chars@.len() == old(self).chars@.len(),
            final(self).fitness == old(self).fitness,
            forall|i: int|
                0 <= i < old(self).chars@.len() ==> #[trigger] final(self).chars@[i] == old(self).chars@[i] || drawn_char_ok(final(self).chars@[i], background_prob),
            mutation_rate.is_impossible() ==> final(self).chars@ == old(self).chars@,
            mutation_rate.is_certain() ==> forall|i: int|
                0 <= i < old(self).chars@.len() ==> drawn_char_ok(
                    #[trigger] final(self).chars@[i],
                    background_prob,
                ),
    {
        let pool = non_background_chars();
        let size = self.chars.len();
        let mut replacements: Vec<Option<u8>> = Vec::new();
        let mut i: usize = 0;
        while i < size
            invariant
                i <= size,
                replacements@.len() == i,
                pool@ == non_background_alphabet(),
                pool@.len() > 0,
                forall|j: int|
                    0 <= j < pool@.len() ==> in_alphabet(#[trigger] pool@[j]) && pool@[j]
                        != BACKGROUND,
                forall|j: int|
                    0 <= j < i && #[trigger] replacements@[j] is Some ==> drawn_char_ok(
                        replacements@[j]->0,
                        background_prob,
                    ),
                mutation_rate.is_impossible() ==> forall|j: int|
                    0 <= j < i ==> #[trigger] replacements@[j] is None,
                mutation_rate.is_certain() ==> forall|j: int|
                    0 <= j < i ==> #[trigger] replacements@[j] is Some,
            decreases size - i,
        {
            let replacement = if flip(mutation_rate) {
                Some(draw_char(&pool, background_prob))
            } else {
                None
            };
            replacements.push(replacement);
            i = i + 1;
        }
        self.mutate_with(replacements.as_slice());
        proof {
            if mutation_rate.is_impossible() {
                assert(self.chars@ =~= old(self).chars@);
            }
            assert forall|i: int| 0 <= i < old(self).chars@.len() implies #[trigger] self.chars@[i]
                == old(self).chars@[i] || drawn_char_ok(self.chars@[i], background_prob) by {
                if replacements@[i] is Some {
                }
            }
        }
    }
}

/// The seed character as a character code, or the background glyph where
/// the seed is not an allowed character.
pub fn seed_byte(init_char: char) -> (code: u8)
    ensures
        code == seed_code(init_char),
        in_alphabet(code),
{
    proof {
        lemma_background_in_alphabet();
    }
    let point: u32 = init_char as u32;
    if point <= 0xFF && is_allowed(point as u8) {
        point as u8
    } else {
        BACKGROUND
    }
}

/// Draws one character: the background glyph with probability
/// `background_prob`, otherwise a uniformly chosen member of `pool`.
fn draw_char(pool: &Vec<u8>, background_prob: Ratio) -> (code: u8)
    requires
        pool@.len() > 0,
        forall|j: int| 0 <= j < pool@.len() ==> in_alphabet(#[trigger] pool@[j]) && pool@[j] != BACKGROUND,
    ensures
        drawn_char_ok(code, background_prob),
{
    proof {
        lemma_background_in_alphabet();
    }
    if flip(background_prob) {
        BACKGROUND
    } else {
        pool[pick_index(pool.len())]
    }
}

/// Draws a uniformly chosen allowed character.
fn random_allowed_char() -> (code: u8)
    ensures
        in_alphabet(code),
{
    let i = pick_index(ALLOWED_CHARS.len());
    assert(alphabet()[i as int] == ALLOWED_CHARS[i as int]);
    ALLOWED_CHARS[i]
}

/// Penalty, in thousandths of a point, for each background pixel that a
/// candidate lights up: the genetic search charges a hundredth of a point.
pub const GENETIC_PENALTY: u64 = 10;

/// Number of individuals that compete in one tournament.
pub const TOURNAMENT_SIZE: usize = 3;

/// Why an engine could not be set up.
#[derive(Clone, Copy, Debug, PartialEq, Eq, Structural)]
pub enum SetupError {
    /// The worker pool could not be built.
    WorkerPool,
}

/// How the set-up of the process-wide worker pool ended.
#[derive(Clone, Copy, Debug, PartialEq, Eq, Structural)]
pub enum PoolSetup {
    /// The pool was built with the requested size.
    Ready,
    /// A pool had been built before; it stays as it is.
    AlreadyInitialized,
    /// The pool could not be built.
    Failed,
}

/// What the engine reports after each generation's evaluation.
#[derive(Debug)]
pub struct GenerationReport {
    /// Index of the generation just evaluated, from 0.
    pub generation: u32,
    /// Requested number of generations; 0 means "until cancelled".
    pub total_generations: u32,
    /// Fitness of the best individual of this generation.
    pub best_fitness: Ratio,
    /// Number of individuals in the population.
    pub population_size: usize,
    /// Number of workers the pool was asked for.
    pub thread_count: usize,
    /// Grid width in characters.
    pub width: u32,
    /// Grid height in characters.
    pub height: u32,
    /// The best grid as text, when previews were asked for.
    pub ascii_art: Option<String>,
}

/// `ThreadPoolBuilder::new().num_threads(n).build_global()`: tries to build
/// rayon's process-wide pool. Nothing is promised of the outcome; the three
/// results tell a first initialisation, an earlier one and a failure apart.
#[verifier::external_body]
fn configure_worker_pool(thread_count: usize) -> (status: PoolSetup) {
    match rayon::ThreadPoolBuilder::new().num_threads(thread_count).build_global() {
        Ok(()) => PoolSetup::Ready,
        Err(e) => if format!("{:?}", e).contains("GlobalPoolAlreadyInitialized") {
            PoolSetup::AlreadyInitialized
        } else {
            PoolSetup::Failed
        },
    }
}

/// Rayon's `par_iter().map(..).collect()` over the grids: entry `i` of the
/// result is the fitness that [`GeneticAlgorithm::calculate_fitness_for_chars_static`]
/// computes for grid `i`; collecting into a vector keeps the order.
#[verifier::external_body]
fn evaluate_in_parallel(
    chars_list: &Vec<Vec<u8>>,
    ascii_generator: &AsciiGenerator,
    target_image: &GrayImage,
    width: u32,
    height: u32,
    total_non_background_pixels: u64,
    background_threshold: u8,
    white_background: bool,
) -> (fitness_values: Vec<Ratio>)
    requires
        ascii_generator.wf(),
        ascii_generator.can_compose(width as nat, height as nat),
        target_image@.width * target_image@.height <= MAX_TARGET_PIXELS,
        total_non_background_pixels <= MAX_TARGET_PIXELS,
    ensures
        fitness_values@.len() == chars_list@.len(),
        forall|i: int|
            0 <= i < chars_list@.len() ==> #[trigger] fitness_values@[i] == grid_fitness(
                ascii_generator,
                chars_list@[i]@,
                width as nat,
                height as nat,
                target_image@,
                total_non_background_pixels as nat,
                background_threshold,
                white_background,
                GENETIC_PENALTY as nat,
            ),
{
    chars_list.par_iter().map(
        |chars| {
            GeneticAlgorithm::calculate_fitness_for_chars_static(
                chars,
                ascii_generator,
                target_image,
                width,
                height,
                total_non_background_pixels,
                background_threshold,
                white_background,
            )
        },
    ).collect()
}

/// After generation `generation` has been evaluated and reported, the search
/// goes on when the callback did not ask to stop, the generation counter can
/// still grow, and either no number of generations was fixed
/// (`generations == 0`) or a requested generation is still to come.
pub open spec fn search_goes_on(generation: u32, generations: u32, keep_going: bool) -> bool {
    keep_going && generation < u32::MAX && (generations == 0 || generation + 1 < generations)
}

/// Index of the last generation of a search that is never asked to stop: the
/// last requested one, or the last that the counter can hold where no number
/// was fixed.
pub open spec fn last_generation(generations: u32) -> u32 {
    if generations == 0 {
        u32::MAX
    } else {
        (generations - 1) as u32
    }
}

/// The callback never asks to stop: there is none, or it answers `true` to
/// every report.
pub open spec fn never_stops<F: FnMut(GenerationReport) -> bool>(callback: Option<F>) -> bool {
    callback is None || forall|report: GenerationReport, go: bool|
        call_ensures(callback->0, (report,), go) ==> go
}

/// Decides, after a generation's report, whether another one is bred.
pub fn search_continues(generation: u32, generations: u32, keep_going: bool) -> (go: bool)
    ensures
        go == search_goes_on(generation, generations, keep_going),
{
    keep_going && generation < u32::MAX && (generations == 0 || generation + 1 < generations)
}

/// With the right number of foreground pixels as divisor, the fitness of
/// every grid lies in `[0, 1]`.
pub proof fn lemma_grid_fitness_in_unit(
    generator: &AsciiGenerator,
    chars: Seq<u8>,
    width: nat,
    height: nat,
    target: Bitmap,
    threshold: u8,
    white_background: bool,
    penalty: nat,
)
    requires
        target.width * target.height <= MAX_TARGET_PIXELS,
    ensures
        grid_fitness(
            generator,
            chars,
            width,
            height,
            target,
            foreground_count(target, threshold, white_background),
            threshold,
            white_background,
            penalty,
        ).in_unit(),
{
    crate::scoring::lemma_fitness_bounds(
        generator.composed(chars, width, height, white_background),
        target,
        threshold,
        white_background,
        penalty,
    );
}

/// What a child of the population may hold at `position`: the character
/// that some member holds there, or a freshly drawn one.
pub open spec fn inherited_or_drawn(
    population: Seq<IndividualView>,
    position: int,
    code: u8,
    background_prob: Ratio,
) -> bool {
    ||| exists|m: int|
        0 <= m < population.len() && 0 <= position < (#[trigger] population[m]).chars.len()
            && population[m].chars[position] == code
    ||| drawn_char_ok(code, background_prob)
}

/// `value` is an entry of `order`.
pub open spec fn occurs_in(order: Seq<int>, value: int) -> bool {
    exists|i: int| 0 <= i < order.len() && #[trigger] order[i] == value
}

/// `after` is `before` sorted by descending fitness, with individuals of
/// equal fitness in their earlier order: `order[i]` is the place in `before`
/// of the individual at place `i` of `after`, and every place of `before`
/// occurs in `order` exactly once.
pub open spec fn sorted_by_fitness_via(
    before: Seq<IndividualView>,
    after: Seq<IndividualView>,
    order: Seq<int>,
) -> bool {
    &&& after.len() == before.len()
    &&& order.len() == before.len()
    &&& forall|i: int| 0 <= i < order.len() ==> 0 <= #[trigger] order[i] < before.len()
    &&& forall|i: int, j: int| 0 <= i < j < order.len() ==> #[trigger] order[i] != #[trigger] order[j]
    &&& forall|j: int| 0 <= j < before.len() ==> #[trigger] occurs_in(order, j)
    &&& forall|i: int| 0 <= i < after.len() ==> #[trigger] after[i] == before[order[i]]
    &&& forall|i: int, j: int|
        0 <= i < j < after.len() ==> (#[trigger] after[i]).fitness.spec_ge((#[trigger] after[j]).fitness)
    &&& forall|i: int, j: int|
        0 <= i < j < after.len() && (#[trigger] after[i]).fitness.same_value(
            (#[trigger] after[j]).fitness,
        ) ==> order[i] < order[j]
}

/// `after` is `before` sorted by descending fitness, with individuals of
/// equal fitness in their earlier order.
pub open spec fn sorted_by_fitness(before: Seq<IndividualView>, after: Seq<IndividualView>) -> bool {
    exists|order: Seq<int>| sorted_by_fitness_via(before, after, order)
}

/// After sorting, the first individual is at least as fit as every
/// individual that went in.
pub proof fn lemma_sorted_head_is_fittest(before: Seq<IndividualView>, after: Seq<IndividualView>, j: int)
    requires
        sorted_by_fitness(before, after),
        forall|i: int| 0 <= i < before.len() ==> (#[trigger] before[i]).fitness.wf(),
        0 <= j < before.len(),
    ensures
        after[0].fitness.spec_ge(before[j].fitness),
{
    let order = choose|order: Seq<int>| sorted_by_fitness_via(before, after, order);
    assert(occurs_in(order, j));
    let i = choose|i: int| 0 <= i < order.len() && #[trigger] order[i] == j;
    assert(after[i] == before[order[i]]);
    if i == 0 {
        assert(before[j].fitness.wf());
    } else {
        assert(after[0].fitness.spec_ge(after[i].fitness));
    }
}

/// The first child of a crossover in which every position is swapped is the
/// second parent, and the second child the first parent; where no position is
/// swapped the children are the parents.
pub proof fn lemma_crossover_extremes(a: Seq<u8>, b: Seq<u8>, swaps: Seq<bool>)
    requires
        a.len() == b.len(),
        swaps.len() >= a.len(),
    ensures
        (forall|i: int| 0 <= i < a.len() ==> swaps[i]) ==> crossed(a, b, swaps) == b && crossed(
            b,
            a,
            swaps,
        ) == a,
        (forall|i: int| 0 <= i < a.len() ==> !swaps[i]) ==> crossed(a, b, swaps) == a && crossed(
            b,
            a,
            swaps,
        ) == b,
{
    if forall|i: int| 0 <= i < a.len() ==> swaps[i] {
        assert(crossed(a, b, swaps) =~= b);
        assert(crossed(b, a, swaps) =~= a);
    }
    if forall|i: int| 0 <= i < a.len() ==> !swaps[i] {
        assert(crossed(a, b, swaps) =~= a);
        assert(crossed(b, a, swaps) =~= b);
    }
}

/// A mutation that replaces every position by an allowed character yields a
/// grid over the alphabet, whatever it was before; a mutation that replaces
/// nothing yields the grid unchanged.
pub proof fn lemma_mutation_extremes(chars: Seq<u8>, replacements: Seq<Option<u8>>)
    requires
        replacements.len() >= chars.len(),
    ensures
        (forall|i: int|
            0 <= i < chars.len() ==> (#[trigger] replacements[i]) is Some && in_alphabet(
                replacements[i]->0,
            )) ==> all_in_alphabet(replaced(chars, replacements)),
        (forall|i: int| 0 <= i < chars.len() ==> (#[trigger] replacements[i]) is None) ==> replaced(
            chars,
            replacements,
        ) == chars,
{
    if forall|i: int|
        0 <= i < chars.len() ==> (#[trigger] replacements[i]) is Some && in_alphabet(
            replacements[i]->0,
        ) {
        assert forall|i: int| 0 <= i < replaced(chars, replacements).len() implies in_alphabet(
            #[trigger] replaced(chars, replacements)[i],
        ) by {
            assert(replacements[i] is Some);
        }
    }
    if forall|i: int| 0 <= i < chars.len() ==> (#[trigger] replacements[i]) is None {
        assert(replaced(chars, replacements) =~= chars);
    }
}

/// The views of a population's individuals.
pub open spec fn views_of(population: Seq<Individual>) -> Seq<IndividualView> {
    Seq::new(population.len(), |i: int| population[i]@)
}

/// Sorts a population by descending fitness; individuals of equal fitness
/// keep their order.
pub fn sort_by_fitness(population: &mut Vec<Individual>)
    requires
        forall|i: int| 0 <= i < old(population)@.len() ==> (#[trigger] old(population)@[i]).fitness.wf(),
    ensures
        sorted_by_fitness(views_of(old(population)@), views_of(final(population)@)),
{
    let ghost before = views_of(population@);
    let mut pending: Vec<Individual> = Vec::new();
    std::mem::swap(population, &mut pending);
    let ghost mut order: Seq<int> = Seq::empty();
    let ghost mut place_of: Seq<int> = Seq::new(before.len(), |j: int| 0int);
    assert(views_of(pending@) =~= before);
    while pending.len() > 0
        invariant
            population@.len() + pending@.len() == before.len(),
            order.len() == population@.len(),
            place_of.len() == before.len(),
            forall|j: int|
                pending@.len() <= j < before.len() ==> 0 <= #[trigger] place_of[j] < order.len()
                    && order[place_of[j]] == j,
            forall|i: int| 0 <= i < before.len() ==> (#[trigger] before[i]).fitness.wf(),
            forall|i: int| 0 <= i < pending@.len() ==> (#[trigger] pending@[i])@ == before[i],
            forall|i: int| 0 <= i < order.len() ==> pending@.len() <= #[trigger] order[i] < before.len(),
            forall|i: int, j: int|
                0 <= i < j < order.len() ==> #[trigger] order[i] != #[trigger] order[j],
            forall|i: int|
                0 <= i < population@.len() ==> (#[trigger] population@[i])@ == before[order[i]],
            forall|i: int, j: int|
                0 <= i < j < population@.len() ==> (#[trigger] population@[i]).fitness.spec_ge(
                    (#[trigger] population@[j]).fitness,
                ),
            forall|i: int, j: int|
                0 <= i < j < population@.len() && (#[trigger] population@[i]).fitness.same_value(
                    (#[trigger] population@[j]).fitness,
                ) ==> order[i] < order[j],
        decreases pending@.len(),
    {
        let ghost place = pending@.len() - 1;
        let ghost sorted = population@;
        let ghost old_order = order;
        let ghost old_place_of = place_of;
        let individual = pending.pop().unwrap();
        assert(individual@ == before[place]);
        let mut slot: usize = 0;
        while slot < population.len() && population[slot].fitness.gt(&individual.fitness)
            invariant
                slot <= population@.len(),
                population@ == sorted,
                forall|i: int|
                    0 <= i < slot ==> (#[trigger] population@[i]).fitness.spec_gt(individual.fitness),
            decreases population@.len() - slot,
        {
            slot = slot + 1;
        }
        population.insert(slot, individual);
        proof {
            order = old_order.insert(slot as int, place);
            place_of = Seq::new(
                before.len(),
                |j: int|
                    if j == place {
                        slot as int
                    } else if old_place_of[j] >= slot {
                        old_place_of[j] + 1
                    } else {
                        old_place_of[j]
                    },
            );
            assert forall|j: int| pending@.len() <= j < before.len() implies 0 <= #[trigger] place_of[j]
                < order.len() && order[place_of[j]] == j by {
                if j != place {
                    let q = old_place_of[j];
                    assert(old_order[q] == j);
                }
            }
            let fitness = before[place].fitness;
            assert forall|i: int, j: int| 0 <= i < j < population@.len() implies (
            #[trigger] population@[i]).fitness.spec_ge((#[trigger] population@[j]).fitness) by {
                if i == slot {
                    // the newcomer against what follows it
                    assert(population@[j] == sorted[j - 1]);
                    assert(!sorted[slot as int].fitness.spec_gt(fitness));
                    assert(fitness.spec_ge(sorted[slot as int].fitness));
                    if j - 1 > slot {
                        assert(sorted[slot as int].fitness.spec_ge(sorted[j - 1].fitness));
                        lemma_ge_transitive(fitness, sorted[slot as int].fitness, sorted[j - 1].fitness);
                    }
                } else if j == slot {
                    assert(population@[i] == sorted[i]);
                    assert(sorted[i].fitness.spec_gt(fitness));
                } else if i < slot && j > slot {
                    assert(population@[i] == sorted[i]);
                    assert(population@[j] == sorted[j - 1]);
                } else if i < slot && j < slot {
                    assert(population@[i] == sorted[i]);
                    assert(population@[j] == sorted[j]);
                } else {
                    assert(population@[i] == sorted[i - 1]);
                    assert(population@[j] == sorted[j - 1]);
                }
            }
            assert forall|i: int, j: int|
                0 <= i < j < population@.len() && (#[trigger] population@[i]).fitness.same_value(
                    (#[trigger] population@[j]).fitness,
                ) implies order[i] < order[j] by {
                if i == slot {
                    assert(population@[j] == sorted[j - 1]);
                    assert(order[j] == old_order[j - 1]);
                } else if j == slot {
                    assert(population@[i] == sorted[i]);
                    assert(sorted[i].fitness.spec_gt(fitness));
                } else if i < slot && j > slot {
                    assert(population@[i] == sorted[i]);
                    assert(population@[j] == sorted[j - 1]);
                } else if i < slot && j < slot {
                    assert(population@[i] == sorted[i]);
                    assert(population@[j] == sorted[j]);
                } else {
                    assert(population@[i] == sorted[i - 1]);
                    assert(population@[j] == sorted[j - 1]);
                }
            }
            assert forall|i: int| 0 <= i < population@.len() implies (#[trigger] population@[i])@
                == before[order[i]] by {
                if i < slot {
                    assert(population@[i] == sorted[i]);
                } else if i > slot {
                    assert(population@[i] == sorted[i - 1]);
                }
            }
            assert forall|i: int, j: int| 0 <= i < j < order.len() implies #[trigger] order[i]
                != #[trigger] order[j] by {
                if i != slot && j != slot {
                    let i0 = if i < slot { i } else { i - 1 };
                    let j0 = if j < slot { j } else { j - 1 };
                    assert(order[i] == old_order[i0]);
                    assert(order[j] == old_order[j0]);
                } else if i == slot {
                    assert(order[j] == old_order[j - 1]);
                } else {
                    assert(order[i] == old_order[i]);
                }
            }
            assert forall|i: int| 0 <= i < order.len() implies pending@.len() <= #[trigger] order[i]
                < before.len() by {
                if i < slot {
                    assert(order[i] == old_order[i]);
                } else if i > slot {
                    assert(order[i] == old_order[i - 1]);
                }
            }
        }
    }
    proof {
        let after = views_of(population@);
        assert forall|j: int| 0 <= j < before.len() implies #[trigger] occurs_in(order, j) by {
            assert(order[place_of[j]] == j);
        }
        assert(sorted_by_fitness_via(before, after, order));
    }
}

/// The mathematical model of a [`GeneticAlgorithm`].
pub struct EngineView {
    pub population: Seq<IndividualView>,
    pub population_size: nat,
    pub width: nat,
    pub height: nat,
    pub target: Bitmap,
    pub total_non_background_pixels: nat,
    pub background_threshold: u8,
    pub white_background: bool,
    pub background_prob: Ratio,
    pub mutation_rate: Ratio,
    pub crossover_rate: Ratio,
    pub elite_size: nat,
    pub thread_count: nat,
}

/// Evolves a population of candidate grids towards a target bitmap.
pub struct GeneticAlgorithm<'a> {
    population: Vec<Individual>,
    population_size: usize,
    width: u32,
    height: u32,
    ascii_generator: &'a AsciiGenerator,
    target_image: &'a GrayImage,
    total_non_background_pixels: u64,
    background_threshold: u8,
    white_background: bool,
    background_prob: Ratio,
    mutation_rate: Ratio,
    crossover_rate: Ratio,
    elite_size: usize,
    thread_count: usize,
}

impl<'a> View for GeneticAlgorithm<'a> {
    type V = EngineView;

    closed spec fn view(&self) -> EngineView {
        EngineView {
            population: views_of(self.population@),
            population_size: self.population_size as nat,
            width: self.width as nat,
            height: self.height as nat,
            target: self.target_image@,
            total_non_background_pixels: self.total_non_background_pixels as nat,
            background_threshold: self.background_threshold,
            white_background: self.white_background,
            background_prob: self.background_prob,
            mutation_rate: self.mutation_rate,
            crossover_rate: self.crossover_rate,
            elite_size: self.elite_size as nat,
            thread_count: self.thread_count as nat,
        }
    }
}

impl EngineView {
    /// The settings, which no step of the search changes.
    pub open spec fn same_setup(self, other: EngineView) -> bool {
        &&& self.population_size == other.population_size
        &&& self.width == other.width
        &&& self.height == other.height
        &&& self.target == other.target
        &&& self.total_non_background_pixels == other.total_non_background_pixels
        &&& self.background_threshold == other.background_threshold
        &&& self.white_background == other.white_background
        &&& self.background_prob == other.background_prob
        &&& self.mutation_rate == other.mutation_rate
        &&& self.crossover_rate == other.crossover_rate
        &&& self.elite_size == other.elite_size
        &&& self.thread_count == other.thread_count
    }
}

impl<'a> GeneticAlgorithm<'a> {
    /// The renderer that the engine evaluates with.
    pub closed spec fn generator(&self) -> &AsciiGenerator {
        self.ascii_generator
    }

    /// The engine's invariant: the population has its fixed size, every
    /// individual is a full grid over the alphabet with a fitness in `[0, 1]`,
    /// a tenth of the population is elite, and the background statistics
    /// are those of the target.
    pub open spec fn wf(&self) -> bool {
        let v = self@;
        &&& self.generator().wf()
        &&& self.generator().can_compose(v.width, v.height)
        &&& v.width * v.height <= u32::MAX
        &&& v.target.width * v.target.height <= MAX_TARGET_PIXELS
        &&& v.population.len() == v.population_size
        &&& v.elite_size == v.population_size / 10
        &&& v.background_threshold == threshold_for(v.white_background)
        &&& v.total_non_background_pixels == foreground_count(
            v.target,
            v.background_threshold,
            v.white_background,
        )
        &&& v.background_prob == (Ratio {
            num: (v.target.width * v.target.height - v.total_non_background_pixels) as u64,
            den: (v.target.width * v.target.height) as u64,
        })
        &&& v.mutation_rate == (Ratio { num: 1, den: 100 })
        &&& v.crossover_rate == (Ratio { num: 8, den: 10 })
        &&& forall|i: int|
            0 <= i < v.population.len() ==> {
                &&& (#[trigger] v.population[i]).chars.len() == v.width * v.height
                &&& all_in_alphabet(v.population[i].chars)
                &&& v.population[i].fitness.in_unit()
            }
    }

    /// Fitness of a grid against the engine's target.
    pub open spec fn fitness_of(&self, chars: Seq<u8>) -> Ratio {
        grid_fitness(
            self.generator(),
            chars,
            self@.width,
            self@.height,
            self@.target,
            self@.total_non_background_pixels,
            self@.background_threshold,
            self@.white_background,
            GENETIC_PENALTY as nat,
        )
    }

    /// Every individual carries the fitness of its grid, and the population
    /// is in descending order of fitness.
    pub open spec fn evaluated(&self) -> bool {
        &&& forall|i: int|
            0 <= i < self@.population.len() ==> (#[trigger] self@.population[i]).fitness
                == self.fitness_of(self@.population[i].chars)
        &&& forall|i: int, j: int|
            0 <= i < j < self@.population.len() ==> (#[trigger] self@.population[i]).fitness.spec_ge(
                (#[trigger] self@.population[j]).fitness,
            )
    }

    /// The population as it stands once every individual carries the fitness
    /// of its grid, before it is sorted.
    pub open spec fn scored(&self) -> Seq<IndividualView> {
        Seq::new(
            self@.population.len(),
            |i: int|
                IndividualView {
                    chars: self@.population[i].chars,
                    fitness: self.fitness_of(self@.population[i].chars),
                },
        )
    }

    /// Creates an engine with a fresh population and sets up the worker pool
    /// with `thread_count` workers. With a seed character the population is
    /// seeded from it; otherwise it is random with the target's share of
    /// background. A pool that was set up earlier is kept; a pool that cannot
    /// be built is an error.
    pub fn new(
        width: u32,
        height: u32,
        population_size: usize,
        ascii_generator: &'a AsciiGenerator,
        target_image: &'a GrayImage,
        thread_count: usize,
        init_char: Option<char>,
        white_background: bool,
    ) -> (r: Result<GeneticAlgorithm<'a>, SetupError>)
        requires
            ascii_generator.wf(),
            ascii_generator.can_compose(width as nat, height as nat),
            width * height <= u32::MAX,
            target_image@.width * target_image@.height <= MAX_TARGET_PIXELS,
        ensures
            r is Err ==> r->Err_0 == SetupError::WorkerPool,
            r is Ok ==> {
                &&& r->Ok_0.wf()
                &&& r->Ok_0.generator() == ascii_generator
                &&& r->Ok_0@.target == target_image@
                &&& r->Ok_0@.width == width
                &&& r->Ok_0@.height == height
                &&& r->Ok_0@.population_size == population_size
                &&& r->Ok_0@.thread_count == thread_count
                &&& r->Ok_0@.white_background == white_background
                &&& forall|i: int|
                    0 <= i < population_size ==> (#[trigger] r->Ok_0@.population[i]).fitness == (Ratio {
                        num: 0,
                        den: 1,
                    })
                &&& init_char is None ==> forall|i: int, k: int|
                    0 <= i < population_size && 0 <= k < width * height ==> drawn_char_ok(
                        #[trigger] r->Ok_0@.population[i].chars[k],
                        r->Ok_0@.background_prob,
                    )
            },
    {
        let status = configure_worker_pool(thread_count);
        Self::with_pool_status(
            width,
            height,
            population_size,
            ascii_generator,
            target_image,
            thread_count,
            init_char,
            white_background,
            status,
        )
    }

    /// Creates an engine with a fresh population, given how the set-up of the
    /// worker pool ended: a failed set-up is the only error.
    pub fn with_pool_status(
        width: u32,
        height: u32,
        population_size: usize,
        ascii_generator: &'a AsciiGenerator,
        target_image: &'a GrayImage,
        thread_count: usize,
        init_char: Option<char>,
        white_background: bool,
        status: PoolSetup,
    ) -> (r: Result<GeneticAlgorithm<'a>, SetupError>)
        requires
            ascii_generator.wf(),
            ascii_generator.can_compose(width as nat, height as nat),
            width * height <= u32::MAX,
            target_image@.width * target_image@.height <= MAX_TARGET_PIXELS,
        ensures
            r is Err <==> status == PoolSetup::Failed,
            r is Err ==> r->Err_0 == SetupError::WorkerPool,
            r is Ok ==> {
                &&& r->Ok_0.wf()
                &&& r->Ok_0.generator() == ascii_generator
                &&& r->Ok_0@.target == target_image@
                &&& r->Ok_0@.width == width
                &&& r->Ok_0@.height == height
                &&& r->Ok_0@.population_size == population_size
                &&& r->Ok_0@.thread_count == thread_count
                &&& r->Ok_0@.white_background == white_background
                &&& forall|i: int|
                    0 <= i < population_size ==> (#[trigger] r->Ok_0@.population[i]).fitness == (Ratio {
                        num: 0,
                        den: 1,
                    })
                &&& init_char is None ==> forall|i: int, k: int|
                    0 <= i < population_size && 0 <= k < width * height ==> drawn_char_ok(
                        #[trigger] r->Ok_0@.population[i].chars[k],
                        r->Ok_0@.background_prob,
                    )
            },
    {
        match status {
            PoolSetup::Failed => {
                return Err(SetupError::WorkerPool);
            },
            _ => {},
        }
        let individual_size: usize = (width * height) as usize;
        let background_threshold = background_threshold(white_background);
        let total_non_background_pixels = Self::count_non_background_pixels(
            target_image,
            background_threshold,
            white_background,
        );
        let (target_width, target_height) = target_image.dimensions();
        proof {
            crate::ascii_generator::lemma_product_bound(target_width as int, target_height as int);
        }
        let total_pixels: u64 = (target_width as u64) * (target_height as u64);
        let background_prob = Ratio::new(total_pixels - total_non_background_pixels, total_pixels);
        let mut population: Vec<Individual> = Vec::new();
        let mut i: usize = 0;
        while i < population_size
            invariant
                i <= population_size,
                population@.len() == i,
                individual_size == width * height,
                forall|j: int|
                    0 <= j < i ==> {
                        &&& (#[trigger] population@[j]).chars@.len() == individual_size
                        &&& all_in_alphabet(population@[j].chars@)
                        &&& population@[j].fitness == (Ratio { num: 0, den: 1 })
                        &&& init_char is None ==> forall|k: int|
                            0 <= k < individual_size ==> drawn_char_ok(
                                #[trigger] population@[j].chars@[k],
                                background_prob,
                            )
                    },
            decreases population_size - i,
        {
            let individual = match init_char {
                Some(ch) => Individual::new_with_init_char(individual_size, ch),
                None => Individual::new_random_with_background_prob(individual_size, background_prob),
            };
            population.push(individual);
            i = i + 1;
        }
        let engine = GeneticAlgorithm {
            population,
            population_size,
            width,
            height,
            ascii_generator,
            target_image,
            total_non_background_pixels,
            background_threshold,
            white_background,
            background_prob,
            mutation_rate: Ratio::new(1, 100),
            crossover_rate: Ratio::new(8, 10),
            elite_size: population_size / 10,
            thread_count,
        };
        Ok(engine)
    }

    /// The population, best first once it has been evaluated.
    pub fn population(&self) -> (population: &Vec<Individual>)
        ensures
            views_of(population@) == self@.population,
    {
        &self.population
    }

    /// Number of individuals in every generation.
    pub fn population_size(&self) -> (n: usize)
        ensures
            n == self@.population_size,
    {
        self.population_size
    }

    /// Grid width in characters.
    pub fn width(&self) -> (w: u32)
        ensures
            w == self@.width,
    {
        self.width
    }

    /// Grid height in characters.
    pub fn height(&self) -> (h: u32)
        ensures
            h == self@.height,
    {
        self.height
    }

    /// Number of workers the pool was asked for.
    pub fn thread_count(&self) -> (n: usize)
        ensures
            n == self@.thread_count,
    {
        self.thread_count
    }

    /// Number of individuals carried unchanged into the next generation: a
    /// tenth of the population, rounded down, and so fewer than all.
    pub fn elite_size(&self) -> (n: usize)
        ensures
            n == self@.elite_size,
            self.wf() ==> n == self@.population_size / 10,
            self.wf() && self@.population_size > 0 ==> n < self@.population_size,
    {
        self.elite_size
    }

    /// Overwrites the fitness of one individual.
    pub fn set_fitness(&mut self, index: usize, fitness: Ratio)
        requires
            old(self).wf(),
            index < old(self)@.population_size,
            fitness.in_unit(),
        ensures
            final(self).wf(),
            final(self).generator() == old(self).generator(),
            final(self)@.same_setup(old(self)@),
            final(self)@.population == old(self)@.population.update(
                index as int,
                IndividualView { chars: old(self)@.population[index as int].chars, fitness },
            ),
    {
        let ghost before = self@.population;
        self.population[index].fitness = fitness;
        proof {
            assert(self@.population =~= before.update(
                index as int,
                IndividualView { chars: before[index as int].chars, fitness },
            ));
        }
    }

    /// Evaluates the fitness of every individual, in parallel on the worker
    /// pool, and sorts the population by descending fitness; individuals of
    /// equal fitness keep their order.
    pub fn evaluate_population(&mut self)
        requires
            old(self).wf(),
        ensures
            final(self).wf(),
            final(self).generator() == old(self).generator(),
            final(self)@.same_setup(old(self)@),
            final(self).evaluated(),
            sorted_by_fitness(old(self).scored(), final(self)@.population),
    {
        let ghost scored = self.scored();
        let mut chars_list: Vec<Vec<u8>> = Vec::new();
        let mut i: usize = 0;
        while i < self.population.len()
            invariant
                i <= self.population@.len(),
                chars_list@.len() == i,
                forall|j: int| 0 <= j < i ==> (#[trigger] chars_list@[j])@ == self.population@[j].chars@,
            decreases self.population@.len() - i,
        {
            let chars = self.population[i].chars.clone();
            assert(chars@ =~= self.population@[i as int].chars@);
            chars_list.push(chars);
            i = i + 1;
        }
        proof {
            lemma_foreground_bound(
                self.target_image@,
                self.background_threshold,
                self.white_background,
            );
        }
        let fitness_values = evaluate_in_parallel(
            &chars_list,
            self.ascii_generator,
            self.target_image,
            self.width,
            self.height,
            self.total_non_background_pixels,
            self.background_threshold,
            self.white_background,
        );
        let mut k: usize = 0;
        while k < self.population.len()
            invariant
                k <= self.population@.len(),
                self.population@.len() == scored.len(),
                fitness_values@.len() == scored.len(),
                self.generator() == old(self).generator(),
                self@.same_setup(old(self)@),
                forall|j: int|
                    0 <= j < scored.len() ==> (#[trigger] self.population@[j]).chars@ == scored[j].chars,
                forall|j: int| 0 <= j < scored.len() ==> #[trigger] fitness_values@[j] == scored[j].fitness,
                forall|j: int| 0 <= j < k ==> (#[trigger] self.population@[j]).fitness == scored[j].fitness,
            decreases self.population@.len() - k,
        {
            self.population[k].fitness = fitness_values[k];
            k = k + 1;
        }
        proof {
            assert(views_of(self.population@) =~= scored);
            assert forall|j: int| 0 <= j < scored.len() implies (#[trigger] scored[j]).fitness.in_unit() by {
                lemma_grid_fitness_in_unit(
                    self.generator(),
                    scored[j].chars,
                    self@.width,
                    self@.height,
                    self@.target,
                    self@.background_threshold,
                    self@.white_background,
                    GENETIC_PENALTY as nat,
                );
            }
        }
        sort_by_fitness(&mut self.population);
        proof {
            let after = views_of(self.population@);
            let order = choose|order: Seq<int>| sorted_by_fitness_via(scored, after, order);
            assert forall|j: int| 0 <= j < after.len() implies {
                &&& (#[trigger] after[j]).chars.len() == self@.width * self@.height
                &&& all_in_alphabet(after[j].chars)
                &&& after[j].fitness.in_unit()
                &&& after[j].fitness == self.fitness_of(after[j].chars)
            } by {
                assert(after[j] == scored[order[j]]);
                assert(scored[order[j]].chars == old(self)@.population[order[j]].chars);
            }
        }
    }

    /// The winner of a tournament among the individuals at the places
    /// `entrants`: the fittest of them, and the first such one.
    pub fn tournament_winner(&self, entrants: &[usize]) -> (winner: usize)
        requires
            self.wf(),
            entrants@.len() > 0,
            forall|j: int| 0 <= j < entrants@.len() ==> #[trigger] entrants@[j] < self@.population.len(),
        ensures
            winner < self@.population.len(),
            exists|k: int|
                {
                    &&& 0 <= k < entrants@.len()
                    &&& winner == #[trigger] entrants@[k]
                    &&& forall|j: int|
                        0 <= j < k ==> self@.population[winner as int].fitness.spec_gt(
                            self@.population[#[trigger] entrants@[j] as int].fitness,
                        )
                },
            forall|j: int|
                0 <= j < entrants@.len() ==> self@.population[winner as int].fitness.spec_ge(
                    self@.population[#[trigger] entrants@[j] as int].fitness,
                ),
    {
        let mut best: usize = entrants[0];
        let ghost mut best_at: int = 0;
        let mut i: usize = 1;
        assert(self@.population[best as int].fitness.in_unit());
        while i < entrants.len()
            invariant
                self.wf(),
                1 <= i <= entrants@.len(),
                forall|j: int|
                    0 <= j < entrants@.len() ==> #[trigger] entrants@[j] < self@.population.len(),
                0 <= best_at < i,
                best == entrants@[best_at],
                best < self@.population.len(),
                forall|j: int|
                    0 <= j < best_at ==> self@.population[best as int].fitness.spec_gt(
                        self@.population[#[trigger] entrants@[j] as int].fitness,
                    ),
                forall|j: int|
                    0 <= j < i ==> self@.population[best as int].fitness.spec_ge(
                        self@.population[#[trigger] entrants@[j] as int].fitness,
                    ),
            decreases entrants@.len() - i,
        {
            let candidate = entrants[i];
            let ghost candidate_fitness = self@.population[candidate as int].fitness;
            let ghost best_fitness = self@.population[best as int].fitness;
            assert(candidate_fitness.in_unit());
            assert(best_fitness.in_unit());
            if self.population[candidate].fitness.gt(&self.population[best].fitness) {
                proof {
                    assert forall|j: int| 0 <= j < i implies candidate_fitness.spec_gt(
                        self@.population[#[trigger] entrants@[j] as int].fitness,
                    ) by {
                        lemma_gt_ge_transitive(
                            candidate_fitness,
                            best_fitness,
                            self@.population[entrants@[j] as int].fitness,
                        );
                    }
                    best_at = i as int;
                }
                best = candidate;
            }
            i = i + 1;
        }
        best
    }

    /// Tournament selection: three individuals are drawn uniformly, with
    /// repetition, and a copy of the fittest is returned.
    pub fn tournament_selection(&self) -> (selected: Individual)
        requires
            self.wf(),
            self@.population_size > 0,
        ensures
            exists|i: int| 0 <= i < self@.population.len() && selected@ == #[trigger] self@.population[i],
            selected.chars@.len() == self@.width * self@.height,
            all_in_alphabet(selected.chars@),
            selected.fitness.in_unit(),
    {
        let mut entrants: Vec<usize> = Vec::new();
        let mut i: usize = 0;
        while i < TOURNAMENT_SIZE
            invariant
                i <= TOURNAMENT_SIZE,
                entrants@.len() == i,
                self.population@.len() > 0,
                forall|j: int| 0 <= j < i ==> #[trigger] entrants@[j] < self.population@.len(),
            decreases TOURNAMENT_SIZE - i,
        {
            entrants.push(pick_index(self.population.len()));
            i = i + 1;
        }
        let winner = self.tournament_winner(entrants.as_slice());
        let selected = self.population[winner].clone();
        assert(selected@ == self@.population[winner as int]);
        selected
    }

    /// Produces the next generation: the elite, the first tenth of the
    /// population, is carried over unchanged; every further place is filled
    /// with a child of two tournament winners, crossed over and mutated.
    pub fn create_new_generation(&mut self)
        requires
            old(self).wf(),
        ensures
            final(self).wf(),
            final(self).generator() == old(self).generator(),
            final(self)@.same_setup(old(self)@),
            final(self)@.population.len() == old(self)@.population.len(),
            forall|i: int|
                0 <= i < old(self)@.elite_size ==> #[trigger] final(self)@.population[i] == old(self)@.population[i],
            forall|i: int|
                old(self)@.elite_size <= i < old(self)@.population_size ==> (#[trigger] final(self)@.population[i]).fitness == (Ratio { num: 0, den: 1 }),
            forall|i: int, k: int|
                old(self)@.elite_size <= i < old(self)@.population_size && 0 <= k < old(self)@.width
                    * old(self)@.height ==> inherited_or_drawn(
                    old(self)@.population,
                    k,
                    #[trigger] final(self)@.population[i].chars[k],
                    old(self)@.background_prob,
                ),
    {
        let mut new_population: Vec<Individual> = Vec::with_capacity(self.population_size);
        let mut i: usize = 0;
        while i < self.elite_size
            invariant
                self.wf(),
                i <= self.elite_size,
                new_population@.len() == i,
                forall|j: int| 0 <= j < i ==> (#[trigger] new_population@[j])@ == self@.population[j],
            decreases self.elite_size - i,
        {
            let elite = self.population[i].clone();
            assert(elite@ == self@.population[i as int]);
            new_population.push(elite);
            i = i + 1;
        }
        while new_population.len() < self.population_size
            invariant
                self.wf(),
                self.elite_size <= new_population@.len() <= self.population_size,
                forall|j: int|
                    0 <= j < self.elite_size ==> (#[trigger] new_population@[j])@
                        == self@.population[j],
                forall|j: int|
                    0 <= j < new_population@.len() ==> {
                        &&& (#[trigger] new_population@[j]).chars@.len() == self@.width * self@.height
                        &&& all_in_alphabet(new_population@[j].chars@)
                        &&& new_population@[j].fitness.in_unit()
                    },
                forall|j: int|
                    self.elite_size <= j < new_population@.len() ==> (#[trigger] new_population@[j]).fitness
                        == (Ratio { num: 0, den: 1 }),
                forall|j: int, k: int|
                    self.elite_size <= j < new_population@.len() && 0 <= k < self@.width
                        * self@.height ==> inherited_or_drawn(
                        self@.population,
                        k,
                        #[trigger] new_population@[j].chars@[k],
                        self@.background_prob,
                    ),
            decreases self.population_size - new_population@.len(),
        {
            let parent1 = self.tournament_selection();
            let parent2 = self.tournament_selection();
            let (mut child1, mut child2) = parent1.crossover(&parent2, self.crossover_rate);
            let ghost crossed1 = child1.chars@;
            let ghost crossed2 = child2.chars@;
            child1.mutate_with_background_prob(self.mutation_rate, self.background_prob);
            child2.mutate_with_background_prob(self.mutation_rate, self.background_prob);
            proof {
                let m1 = choose|m: int|
                    0 <= m < self@.population.len() && parent1@ == #[trigger] self@.population[m];
                let m2 = choose|m: int|
                    0 <= m < self@.population.len() && parent2@ == #[trigger] self@.population[m];
                assert forall|k: int| 0 <= k < self@.width * self@.height implies inherited_or_drawn(
                    self@.population,
                    k,
                    #[trigger] child1.chars@[k],
                    self@.background_prob,
                ) && inherited_or_drawn(
                    self@.population,
                    k,
                    #[trigger] child2.chars@[k],
                    self@.background_prob,
                ) by {
                    assert(self@.population[m1].chars[k] == parent1.chars@[k]);
                    assert(self@.population[m2].chars[k] == parent2.chars@[k]);
                    assert(crossed1[k] == parent1.chars@[k] || crossed1[k] == parent2.chars@[k]);
                    assert(crossed2[k] == parent1.chars@[k] || crossed2[k] == parent2.chars@[k]);
                    assert(child1.chars@[k] == crossed1[k] || drawn_char_ok(
                        child1.chars@[k],
                        self@.background_prob,
                    ));
                    assert(child2.chars@[k] == crossed2[k] || drawn_char_ok(
                        child2.chars@[k],
                        self@.background_prob,
                    ));
                }
            }
            new_population.push(child1);
            if new_population.len() < self.population_size {
                new_population.push(child2);
            }
        }
        let ghost before = self@;
        self.population = new_population;
        proof {
            assert forall|j: int| 0 <= j < before.elite_size implies #[trigger] self@.population[j]
                == before.population[j] by {
                assert(self.population@[j]@ == before.population[j]);
            }
        }
    }

    /// What the engine reports for the generation just evaluated.
    pub fn report(&self, generation: u32, total_generations: u32, verbose: bool) -> (report:
        GenerationReport)
        requires
            self@.population.len() > 0,
        ensures
            report.generation == generation,
            report.total_generations == total_generations,
            report.best_fitness == self@.population[0].fitness,
            report.population_size == self@.population_size,
            report.thread_count == self@.thread_count,
            report.width == self@.width,
            report.height == self@.height,
            report.ascii_art is Some <==> verbose,
            verbose ==> report.ascii_art->0@ == crate::ascii_generator::grid_text(
                self@.population[0].chars,
                self@.width,
                self@.population[0].chars.len() as int,
            ),
    {
        let ascii_art = if verbose {
            Some(self.ascii_generator.individual_to_string(&self.population[0], self.width))
        } else {
            None
        };
        GenerationReport {
            generation,
            total_generations,
            best_fitness: self.population[0].fitness,
            population_size: self.population_size,
            thread_count: self.thread_count,
            width: self.width,
            height: self.height,
            ascii_art,
        }
    }

    /// Runs the search. Each generation is evaluated and reported to the
    /// callback, if there is one; then, unless the callback asked to stop or
    /// the last requested generation has been evaluated, the next generation
    /// is bred. With `generations == 0` only the callback ends the search
    /// (or the exhaustion of the generation counter). Returns a copy of the
    /// best individual of the last evaluated generation, and that
    /// generation's index.
    pub fn evolve<F: FnMut(GenerationReport) -> bool>(
        &mut self,
        generations: u32,
        verbose: bool,
        progress_callback: Option<F>,
    ) -> (result: (Individual, u32))
        requires
            old(self).wf(),
            old(self)@.population_size > 0,
            progress_callback is Some ==> forall|report: GenerationReport|
                call_requires(progress_callback->0, (report,)),
        ensures
            final(self).wf(),
            final(self).generator() == old(self).generator(),
            final(self)@.same_setup(old(self)@),
            final(self).evaluated(),
            result.0@ == final(self)@.population[0],
            result.0.fitness == final(self).fitness_of(result.0.chars@),
            forall|i: int|
                0 <= i < final(self)@.population.len() ==> result.0.fitness.spec_ge(
                    (#[trigger] final(self)@.population[i]).fitness,
                ),
            old(self)@.elite_size >= 1 ==> forall|i: int|
                0 <= i < old(self)@.population.len() ==> result.0.fitness.spec_ge(
                    old(self).fitness_of((#[trigger] old(self)@.population[i]).chars),
                ),
            generations > 0 ==> result.1 < generations,
            never_stops(progress_callback) ==> result.1 == last_generation(generations),
    {
        let mut callback_slot = progress_callback;
        let mut generation: u32 = 0;
        let ghost start = self@.population;
        loop
            invariant_except_break
                generation == 0 ==> self@.population == start,
                generation > 0 && self@.elite_size >= 1 ==> {
                    &&& self@.population[0].fitness == self.fitness_of(self@.population[0].chars)
                    &&& forall|i: int|
                        0 <= i < start.len() ==> self@.population[0].fitness.spec_ge(
                            self.fitness_of((#[trigger] start[i]).chars),
                        )
                },
            invariant
                self.wf(),
                self@.population_size > 0,
                self.generator() == old(self).generator(),
                self@.same_setup(old(self)@),
                start == old(self)@.population,
                callback_slot == progress_callback,
                generations > 0 ==> generation < generations,
                callback_slot is Some ==> forall|report: GenerationReport|
                    call_requires(callback_slot->0, (report,)),
            ensures
                self.wf(),
                self@.population_size > 0,
                self.generator() == old(self).generator(),
                self@.same_setup(old(self)@),
                self.evaluated(),
                generations > 0 ==> generation < generations,
                never_stops(progress_callback) ==> generation == last_generation(generations),
                self@.elite_size >= 1 ==> forall|i: int|
                    0 <= i < start.len() ==> self@.population[0].fitness.spec_ge(
                        self.fitness_of((#[trigger] start[i]).chars),
                    ),
            decreases u32::MAX - generation,
        {
            let ghost unsorted = self.scored();
            let ghost previous = self@.population;
            proof {
                assert forall|j: int| 0 <= j < unsorted.len() implies (#[trigger] unsorted[j]).fitness.wf() by {
                    lemma_grid_fitness_in_unit(
                        self.generator(),
                        unsorted[j].chars,
                        self@.width,
                        self@.height,
                        self@.target,
                        self@.background_threshold,
                        self@.white_background,
                        GENETIC_PENALTY as nat,
                    );
                }
            }
            self.evaluate_population();
            proof {
                if self@.elite_size >= 1 {
                    assert forall|i: int| 0 <= i < start.len() implies self@.population[0].fitness.spec_ge(
                        self.fitness_of((#[trigger] start[i]).chars),
                    ) by {
                        if generation == 0 {
                            lemma_sorted_head_is_fittest(unsorted, self@.population, i);
                            assert(unsorted[i].chars == start[i].chars);
                        } else {
                            lemma_sorted_head_is_fittest(unsorted, self@.population, 0);
                            assert(unsorted[0].fitness == previous[0].fitness);
                            lemma_ge_transitive(
                                self@.population[0].fitness,
                                previous[0].fitness,
                                self.fitness_of(start[i].chars),
                            );
                        }
                    }
                }
            }
            let keep_going = match &mut callback_slot {
                Some(callback) => callback(self.report(generation, generations, verbose)),
                None => true,
            };
            if !search_continues(generation, generations, keep_going) {
                break ;
            }
            self.create_new_generation();
            generation = generation + 1;
        }
        let best = self.population[0].clone();
        proof {
            assert(best@ == self@.population[0]);
            assert forall|i: int| 0 <= i < self@.population.len() implies best.fitness.spec_ge(
                (#[trigger] self@.population[i]).fitness,
            ) by {
                if i == 0 {
                    assert(self@.population[0].fitness.in_unit());
                }
            }
        }
        (best, generation)
    }

    /// Counts the target pixels that are not background: those above the
    /// threshold when glyphs are light on dark, those below it when they are
    /// dark on light.
    pub fn count_non_background_pixels(
        target_image: &GrayImage,
        background_threshold: u8,
        white_background: bool,
    ) -> (count: u64)
        ensures
            count == foreground_count(target_image@, background_threshold, white_background),
            count <= target_image@.width * target_image@.height,
    {
        count_foreground(target_image, background_threshold, white_background)
    }

    /// Fitness of a grid: the rendering of `chars` is compared with the target
    /// pixel by pixel. A foreground pixel reproduced within the tolerance
    /// earns a point, a background pixel that the rendering lights up costs a
    /// hundredth, and the sum, not below zero, is divided by the number of
    /// foreground pixels.
    pub fn calculate_fitness_for_chars_static(
        chars: &[u8],
        ascii_generator: &AsciiGenerator,
        target_image: &GrayImage,
        width: u32,
        height: u32,
        total_non_background_pixels: u64,
        background_threshold: u8,
        white_background: bool,
    ) -> (fitness: Ratio)
        requires
            ascii_generator.wf(),
            ascii_generator.can_compose(width as nat, height as nat),
            target_image@.width * target_image@.height <= MAX_TARGET_PIXELS,
            total_non_background_pixels <= MAX_TARGET_PIXELS,
        ensures
            fitness == grid_fitness(
                ascii_generator,
                chars@,
                width as nat,
                height as nat,
                target_image@,
                total_non_background_pixels as nat,
                background_threshold,
                white_background,
                GENETIC_PENALTY as nat,
            ),
            fitness.wf(),
            total_non_background_pixels == foreground_count(
                target_image@,
                background_threshold,
                white_background,
            ) ==> fitness.in_unit(),
    {
        evaluate_grid(
            chars,
            ascii_generator,
            target_image,
            width,
            height,
            total_non_background_pixels,
            background_threshold,
            white_background,
            GENETIC_PENALTY,
        )
    }

    /// Fitness of a grid against the engine's target.
    pub fn calculate_fitness_for_chars(&self, chars: &[u8]) -> (fitness: Ratio)
        requires
            self.wf(),
        ensures
            fitness == self.fitness_of(chars@),
            fitness.in_unit(),
    {
        proof {
            lemma_foreground_bound(
                self.target_image@,
                self.background_threshold,
                self.white_background,
            );
        }
        Self::calculate_fitness_for_chars_static(
            chars,
            self.ascii_generator,
            self.target_image,
            self.width,
            self.height,
            self.total_non_background_pixels,
            self.background_threshold,
            self.white_background,
        )
    }

    /// Fitness of an individual's grid against the engine's target.
    pub fn calculate_fitness(&self, individual: &Individual) -> (fitness: Ratio)
        requires
            self.wf(),
        ensures
            fitness == self.fitness_of(individual.chars@),
            fitness.in_unit(),
    {
        self.calculate_fitness_for_chars(individual.chars.as_slice())
    }
}

} // verus!
