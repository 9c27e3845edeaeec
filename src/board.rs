//! The board engine: the grid, its advance by one generation, and the
//! detection of boards that were seen before.
use crate::rules::{alive, fingerprint, neighbor_count, pair_word, pairs_xor, successor, tally, wrap};
use rand::rngs::ThreadRng;
use rand::Rng;
use std::collections::HashSet;
use vstd::prelude::*;

verus! {

broadcast use vstd::std_specs::hash::group_hash_axioms;

/// rand's per-thread generator, carried through as an opaque value.
#[verifier::external_type_specification]
#[verifier::external_body]
pub struct ExThreadRng(ThreadRng);

/// Relies on rand::thread_rng, which hands out the generator of this thread.
/// It panics only where the operating system offers no random seed, which no
/// argument can rule out.
pub assume_specification[ rand::thread_rng ]() -> ThreadRng;

/// Relies on rand::Rng::gen for `bool`: a fair coin; nothing is known of the
/// outcome.
#[verifier::external_body]
fn coin(rng: &mut ThreadRng) -> (r: bool) {
    rng.gen()
}

/// A 32 x 32 Game of Life board on a torus, which starts over from a random
/// board whenever it comes back to a board that it has seen before.
pub struct Board {
    /// Current generation, row after row.
    current: Vec<bool>,
    /// The generation before the most recent advance, row after row.
    previous: Vec<bool>,
    /// Source of the random boards.
    rng: ThreadRng,
    /// Fingerprints of the boards seen since the last fresh start.
    seen_before: HashSet<u64>,
    /// Generations since the last fresh start, counting from one.
    generations: u64,
}

impl Board {
    /// The current generation, as a row-major sequence of cells.
    pub closed spec fn cells(&self) -> Seq<bool> {
        self.current@
    }

    /// The generation before the most recent advance.
    pub closed spec fn prior(&self) -> Seq<bool> {
        self.previous@
    }

    /// The fingerprints seen since the last fresh start.
    pub closed spec fn seen(&self) -> Set<u64> {
        self.seen_before@
    }

    /// The generation counter.
    pub closed spec fn generation(&self) -> nat {
        self.generations as nat
    }

    /// Both grids hold 32 x 32 cells and the counter is at least one.
    pub closed spec fn wf(&self) -> bool {
        &&& self.current@.len() == 1024
        &&& self.previous@.len() == 1024
        &&& self.generations >= 1
    }

    /// A board of random cells, with no fingerprint seen and the counter at one.
    pub fn new() -> (r: Board)
        ensures
            r.wf(),
            r.cells().len() == 1024,
            r.seen() == Set::<u64>::empty(),
            r.generation() == 1,
    {
        let mut board = Board {
            current: vec![false; 1024],
            previous: vec![false; 1024],
            rng: rand::thread_rng(),
            seen_before: HashSet::new(),
            generations: 1,
        };
        board.randomize();
        board
    }

    /// A board that starts from the given row-major cells, with no fingerprint
    /// seen and the counter at one.
    pub fn with_cells(cells: Vec<bool>) -> (r: Board)
        requires
            cells@.len() == 1024,
        ensures
            r.wf(),
            r.cells() == cells@,
            r.seen() == Set::<u64>::empty(),
            r.generation() == 1,
    {
        Board {
            current: cells,
            previous: vec![false; 1024],
            rng: rand::thread_rng(),
            seen_before: HashSet::new(),
            generations: 1,
        }
    }

    /// Whether the cell at column `x`, row `y` of the current generation is alive.
    pub fn state(&self, x: usize, y: usize) -> (r: bool)
        requires
            self.wf(),
            x < 32,
            y < 32,
        ensures
            r == self.cells()[y * 32 + x],
    {
        self.current[y * 32 + x]
    }

    /// The generation counter: generations since the last fresh start,
    /// counting from one.
    pub fn generations(&self) -> (r: u64)
        ensures
            r == self.generation(),
    {
        self.generations
    }

    /// The number of fingerprints seen since the last fresh start.
    pub fn seen_count(&self) -> (r: usize)
        ensures
            r == self.seen().len(),
    {
        self.seen_before.len()
    }

    /// Sets every cell of the current generation to a random value; nothing
    /// else changes.
    pub fn randomize(&mut self)
        requires
            old(self).wf(),
        ensures
            final(self).wf(),
            final(self).prior() == old(self).prior(),
            final(self).seen() == old(self).seen(),
            final(self).generation() == old(self).generation(),
    {
        for k in 0usize..1024
            invariant
                self.wf(),
                self.prior() == old(self).prior(),
                self.seen() == old(self).seen(),
                self.generation() == old(self).generation(),
        {
            let b = coin(&mut self.rng);
            self.current[k] = b;
        }
    }

    /// Advances the board by one generation. The cells before the advance
    /// become the prior generation. When the fingerprint of the new generation
    /// was seen before, the board starts over: the seen fingerprints are
    /// cleared, the cells are drawn at random, the counter goes back to one, and
    /// the number of generations of the cycle that ended is returned. Otherwise
    /// the fingerprint is recorded, the counter goes up by one (it stops at
    /// `u64::MAX`), and `None` is returned.
    pub fn next(&mut self) -> (r: Option<u64>)
        requires
            old(self).wf(),
        ensures
            final(self).wf(),
            final(self).prior() == old(self).cells(),
            old(self).seen().contains(fingerprint(successor(old(self).cells()))) ==> {
                &&& r == Some(old(self).generation() as u64)
                &&& final(self).seen() == Set::<u64>::empty()
                &&& final(self).generation() == 1
            },
            !old(self).seen().contains(fingerprint(successor(old(self).cells()))) ==> {
                &&& r == None::<u64>
                &&& final(self).cells() == successor(old(self).cells())
                &&& final(self).seen() == old(self).seen().insert(
                    fingerprint(successor(old(self).cells())),
                )
                &&& final(self).generation() == if old(self).generation() < u64::MAX {
                    old(self).generation() + 1
                } else {
                    old(self).generation()
                }
            },
    {
        for k in 0usize..1024
            invariant
                self.wf(),
                self.current@ == old(self).current@,
                self.seen_before@ == old(self).seen_before@,
                self.generations == old(self).generations,
                forall|i: int| 0 <= i < k ==> self.previous@[i] == self.current@[i],
        {
            self.previous[k] = self.current[k];
        }
        assert(self.previous@ == old(self).current@);
        for k in 0usize..1024
            invariant
                self.wf(),
                self.previous@ == old(self).current@,
                self.seen_before@ == old(self).seen_before@,
                self.generations == old(self).generations,
                forall|i: int| 0 <= i < k ==> self.current@[i] == #[trigger] successor(self.previous@)[i],
                forall|i: int| k <= i < 1024 ==> self.current@[i] == self.previous@[i],
        {
            let y = k / 32;
            let x = k % 32;
            let neighbors = count_neighbors(&self.previous, y as i32, x as i32);
            if self.current[k] {
                // A live cell stays alive with two or three neighbours.
                self.current[k] = neighbors == 2 || neighbors == 3;
            } else {
                // A dead cell is born with exactly three.
                self.current[k] = neighbors == 3;
            }
        }
        assert(self.current@ == successor(old(self).current@));
        let board_hash = self.hash();
        if self.seen_before.contains(&board_hash) {
            let completed = self.generations;
            self.seen_before.clear();
            self.randomize();
            self.generations = 1;
            Some(completed)
        } else {
            self.seen_before.insert(board_hash);
            if self.generations < u64::MAX {
                self.generations += 1;
            }
            None
        }
    }

    /// The fingerprint of the current generation.
    pub fn hash(&self) -> (r: u64)
        requires
            self.wf(),
        ensures
            r == fingerprint(self.cells()),
    {
        let mut hash: u64 = 0;
        for row in 1usize..16
            invariant
                self.wf(),
                hash == pairs_xor(self.current@, row as nat),
        {
            let mut row_hash: u64 = 0;
            // Upper row into the upper bits.
            for i in 0usize..32
                invariant
                    self.wf(),
                    1 <= row < 16,
                    row_hash == pair_word(self.current@, row as int, i as nat),
            {
                row_hash |= if self.current[row * 2 * 32 + i] {
                    1u64 << ((63 - i) as u64)
                } else {
                    0u64
                };
            }
            // Lower row into the lower bits.
            for j in 0usize..32
                invariant
                    self.wf(),
                    1 <= row < 16,
                    row_hash == pair_word(self.current@, row as int, (32 + j) as nat),
            {
                row_hash |= if self.current[(row * 2 + 1) * 32 + j] {
                    1u64 << ((31 - j) as u64)
                } else {
                    0u64
                };
            }
            hash ^= row_hash;
        }
        hash
    }
}

/// The number of live neighbours of the cell at column `x`, row `y` of the
/// row-major grid `board`, counted on the torus.
pub fn count_neighbors(board: &Vec<bool>, y: i32, x: i32) -> (r: u32)
    requires
        board@.len() == 1024,
        0 <= y < 32,
        0 <= x < 32,
    ensures
        r == neighbor_count(board@, x as int, y as int),
{
    let mut neighbors: u32 = 0;
    for i in -1i32..2
        invariant
            board@.len() == 1024,
            0 <= y < 32,
            0 <= x < 32,
            neighbors == rows_count(board@, x as int, y as int, i + 1),
            neighbors <= 3 * (i + 1),
    {
        for j in -1i32..2
            invariant
                board@.len() == 1024,
                0 <= y < 32,
                0 <= x < 32,
                -1 <= i < 2,
                neighbors <= 3 * (i + 1) + (j + 1),
                neighbors == rows_count(board@, x as int, y as int, i + 1) + cols_count(
                    board@,
                    x as int,
                    y as int,
                    i as int,
                    j + 1,
                ),
        {
            let mut index_y: i32 = y + i;
            if index_y < 0 {
                index_y += 32;
            }
            if index_y >= 32 {
                index_y -= 32;
            }
            let mut index_x: i32 = x + j;
            if index_x < 0 {
                index_x += 32;
            }
            if index_x >= 32 {
                index_x -= 32;
            }
            assert(index_y == wrap(y + i) && index_x == wrap(x + j));
            let cell = board[index_y as usize * 32 + index_x as usize];
            if !(i == 0 && j == 0) && cell {
                neighbors += 1;
            }
        }
    }
    proof {
        reveal_with_fuel(rows_count, 4);
        reveal_with_fuel(cols_count, 4);
    }
    neighbors
}

/// The live cells at the offsets `(i, j)`, `j` from -1 below `n - 1`, other than
/// the centre, around column `x`, row `y`.
spec fn cols_count(g: Seq<bool>, x: int, y: int, i: int, n: int) -> nat
    decreases n,
{
    if n <= 0 {
        0
    } else {
        cols_count(g, x, y, i, n - 1) + tally(!(i == 0 && n - 2 == 0) && alive(g, x + n - 2, y + i))
    }
}

/// The live cells, other than the centre, in the first `n` rows of offsets
/// around column `x`, row `y`.
spec fn rows_count(g: Seq<bool>, x: int, y: int, n: int) -> nat
    decreases n,
{
    if n <= 0 {
        0
    } else {
        rows_count(g, x, y, n - 1) + cols_count(g, x, y, n - 2, 3)
    }
}

} // verus!
