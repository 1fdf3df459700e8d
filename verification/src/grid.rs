//! A bounded, dense Life universe: a `width` by `height` grid of cells
//! updated in place, with the same rule evaluator as the quadtree
//! engine.  Coordinates outside the grid read as dead and neighbours
//! beyond the border count as dead.

use vstd::prelude::*;

verus! {

/// The state of one grid cell.
#[derive(Clone, Copy, PartialEq, Eq, Structural, Debug)]
pub enum Cell {
    Dead,
    Alive,
}

/// A bounded rectangular universe, stored row-major.
pub struct Universe {
    width: usize,
    height: usize,
    cells: Vec<Cell>,
}

/// Whether `(r, c)` occurs among the listed coordinates (row, column).
pub open spec fn listed(s: Seq<(usize, usize)>, r: int, c: int) -> bool {
    exists|k: int| 0 <= k < s.len() && s[k].0 == r && s[k].1 == c
}

/// Number of live cells in a row-major sequence.
pub open spec fn alive_count(s: Seq<Cell>) -> nat
    decreases s.len(),
{
    if s.len() == 0 {
        0nat
    } else {
        alive_count(s.drop_last()) + (if s.last() == Cell::Alive {
            1nat
        } else {
            0nat
        })
    }
}

/// A whole grid written by the scatter fill from one seed.
pub open spec fn seeded_grid(s: Seq<Cell>, seed: u64) -> bool {
    forall|i: int| 0 <= i < s.len() ==> s[i] == #[trigger] seeded_cell(seed, i)
}

/// The cell the deterministic scatter fill writes at index `i` for a
/// given 64-bit seed: roughly 30% of cells are set.
pub open spec fn seeded_cell(seed: u64, i: int) -> Cell {
    if vstd::wrapping::u64_specs::wrapping_mul(seed, (i + 1) as u64) % 100 < 30 {
        Cell::Alive
    } else {
        Cell::Dead
    }
}

/// The relative coordinates (row, column) of the Gosper glider gun.
pub open spec fn gun_cells() -> Seq<(usize, usize)> {
    seq![
        (5usize, 1usize),
        (5, 2),
        (6, 1),
        (6, 2),
        (3, 13),
        (3, 14),
        (4, 12),
        (4, 16),
        (5, 11),
        (5, 17),
        (6, 11),
        (6, 15),
        (6, 17),
        (6, 18),
        (7, 11),
        (7, 17),
        (8, 12),
        (8, 16),
        (9, 13),
        (9, 14),
        (1, 25),
        (2, 23),
        (2, 25),
        (3, 21),
        (3, 22),
        (4, 21),
        (4, 22),
        (5, 21),
        (5, 22),
        (6, 23),
        (6, 25),
        (7, 25),
        (3, 35),
        (3, 36),
        (4, 35),
        (4, 36),
    ]
}

/// A row-major index stays inside the grid.
proof fn lemma_grid_index(w: int, h: int, r: int, c: int)
    requires
        0 <= r < h,
        0 <= c < w,
    ensures
        0 <= r * w + c,
        r * w + c < h * w,
        r * w + c < w * h,
{
    assert(r * w + c < h * w && h * w == w * h) by (nonlinear_arith)
        requires
            0 <= r < h && 0 <= c < w,
    ;
    assert(0 <= r * w + c) by (nonlinear_arith)
        requires
            0 <= r && 0 <= c && 0 <= w,
    ;
}

/// Row-major order: an earlier cell has a smaller index.
proof fn lemma_grid_index_lt(w: int, r1: int, c1: int, r2: int, c2: int)
    requires
        0 <= c1 < w,
        0 <= c2,
        (r1 < r2) || (r1 == r2 && c1 < c2),
    ensures
        r1 * w + c1 < r2 * w + c2,
{
    assert(r1 * w + c1 < r2 * w + c2) by (nonlinear_arith)
        requires
            0 <= c1 < w && 0 <= c2 && ((r1 < r2) || (r1 == r2 && c1 < c2)),
    ;
}

/// Distinct in-bounds coordinates have distinct row-major indices.
proof fn lemma_grid_index_injective(w: int, h: int, r1: int, c1: int, r2: int, c2: int)
    requires
        0 <= r1 < h,
        0 <= c1 < w,
        0 <= r2 < h,
        0 <= c2 < w,
        !(r1 == r2 && c1 == c2),
    ensures
        r1 * w + c1 != r2 * w + c2,
{
    assert(r1 * w + c1 != r2 * w + c2) by (nonlinear_arith)
        requires
            0 <= r1 < h && 0 <= c1 < w && 0 <= r2 < h && 0 <= c2 < w && !(r1 == r2 && c1 == c2),
    ;
}

/// Relies on rand::random for a fresh 64-bit seed; nothing is assumed
/// of its value.  The thread-local generator panics if the operating
/// system's randomness source fails at initialization or reseeding, an
/// environmental failure comparable to running out of memory.
#[verifier::external_body]
fn random_seed() -> u64 {
    rand::random()
}

impl Universe {
    /// Number of columns.
    pub closed spec fn width_spec(&self) -> int {
        self.width as int
    }

    /// Number of rows.
    pub closed spec fn height_spec(&self) -> int {
        self.height as int
    }

    /// The cells, row-major.
    pub closed spec fn grid(&self) -> Seq<Cell> {
        self.cells@
    }

    /// The grid holds exactly `width * height` cells, and both sides
    /// stay small enough for all index arithmetic to fit.
    pub open spec fn wf(&self) -> bool {
        &&& self.grid().len() == self.width_spec() * self.height_spec()
        &&& self.width_spec() <= 0x4000_0000
        &&& self.height_spec() <= 0x4000_0000
    }

    /// Row-major index of `(row, col)`.
    pub open spec fn idx(&self, row: int, col: int) -> int {
        row * self.width_spec() + col
    }

    /// The cell at `(row, col)`; anything off the grid is dead.
    pub open spec fn cell_spec(&self, row: int, col: int) -> Cell {
        if 0 <= row < self.height_spec() && 0 <= col < self.width_spec() {
            self.grid()[self.idx(row, col)]
        } else {
            Cell::Dead
        }
    }

    /// Number of live cells among the eight neighbours of `(row, col)`;
    /// neighbours beyond the border are dead.
    #[verifier::opaque]
    pub open spec fn neighbors_spec(&self, row: int, col: int) -> nat {
        (if self.cell_spec(row - 1, col - 1) == Cell::Alive {
            1nat
        } else {
            0nat
        }) + (if self.cell_spec(row - 1, col) == Cell::Alive {
            1nat
        } else {
            0nat
        }) + (if self.cell_spec(row - 1, col + 1) == Cell::Alive {
            1nat
        } else {
            0nat
        }) + (if self.cell_spec(row, col - 1) == Cell::Alive {
            1nat
        } else {
            0nat
        }) + (if self.cell_spec(row, col + 1) == Cell::Alive {
            1nat
        } else {
            0nat
        }) + (if self.cell_spec(row + 1, col - 1) == Cell::Alive {
            1nat
        } else {
            0nat
        }) + (if self.cell_spec(row + 1, col) == Cell::Alive {
            1nat
        } else {
            0nat
        }) + (if self.cell_spec(row + 1, col + 1) == Cell::Alive {
            1nat
        } else {
            0nat
        })
    }

    /// An all-dead universe of the given dimensions.
    #[verifier::loop_isolation(false)]
    pub fn new(width: usize, height: usize) -> (u: Universe)
        requires
            width <= 0x4000_0000,
            height <= 0x4000_0000,
            width * height <= usize::MAX,
        ensures
            u.wf(),
            u.width_spec() == width,
            u.height_spec() == height,
            forall|r: int, c: int| u.cell_spec(r, c) == Cell::Dead,
    {
        let total = width * height;
        let mut cells: Vec<Cell> = Vec::new();
        let mut i: usize = 0;
        while i < total
            invariant
                i <= total,
                cells@.len() == i,
                forall|j: int| 0 <= j < i ==> cells@[j] == Cell::Dead,
            decreases total - i,
        {
            cells.push(Cell::Dead);
            i += 1;
        }
        let ghost filled = cells@;
        let u = Universe { width, height, cells };
        proof {
            assert(u.grid() == filled);
            assert(u.grid().len() == u.width_spec() * u.height_spec());
            assert forall|r: int, c: int| u.cell_spec(r, c) == Cell::Dead by {
                if 0 <= r < u.height_spec() && 0 <= c < u.width_spec() {
                    lemma_grid_index(u.width_spec(), u.height_spec(), r, c);
                    assert(0 <= u.idx(r, c) < u.grid().len());
                    assert(filled[u.idx(r, c)] == Cell::Dead);
                    assert(u.grid()[u.idx(r, c)] == Cell::Dead);
                }
            }
        }
        u
    }

    /// Number of columns.
    pub fn width(&self) -> (r: usize)
        ensures
            r == self.width_spec(),
    {
        self.width
    }

    /// Number of rows.
    pub fn height(&self) -> (r: usize)
        ensures
            r == self.height_spec(),
    {
        self.height
    }

    /// Row-major index of an in-bounds coordinate pair.
    fn get_index(&self, row: usize, col: usize) -> (i: usize)
        requires
            self.wf(),
            (row as int) < self.height_spec(),
            (col as int) < self.width_spec(),
        ensures
            i as int == self.idx(row as int, col as int),
            (i as int) < self.grid().len(),
    {
        let n = self.cells.len();
        proof {
            assert(n as int == self.grid().len());
            lemma_grid_index(self.width_spec(), self.height_spec(), row as int, col as int);
        }
        row * self.width + col
    }

    /// Kill every cell, keeping the dimensions.
    #[verifier::loop_isolation(false)]
    pub fn clear(&mut self)
        requires
            old(self).wf(),
        ensures
            final(self).wf(),
            final(self).width_spec() == old(self).width_spec(),
            final(self).height_spec() == old(self).height_spec(),
            forall|r: int, c: int| final(self).cell_spec(r, c) == Cell::Dead,
    {
        let n = self.cells.len();
        let mut i: usize = 0;
        while i < n
            invariant
                i <= n,
                n == self.grid().len(),
                self.width == old(self).width,
                self.height == old(self).height,
                forall|j: int| 0 <= j < i ==> self.grid()[j] == Cell::Dead,
            decreases n - i,
        {
            self.cells[i] = Cell::Dead;
            i += 1;
        }
        proof {
            assert(self.grid().len() == self.width_spec() * self.height_spec());
            assert forall|r: int, c: int| self.cell_spec(r, c) == Cell::Dead by {
                if 0 <= r < self.height_spec() && 0 <= c < self.width_spec() {
                    lemma_grid_index(self.width_spec(), self.height_spec(), r, c);
                    assert(0 <= self.idx(r, c) < self.grid().len());
                    assert(self.grid()[self.idx(r, c)] == Cell::Dead);
                }
            }
        }
    }

    /// Set every listed in-bounds coordinate to alive; out-of-bounds
    /// entries are ignored and every other cell keeps its state.
    #[verifier::loop_isolation(false)]
    pub fn set_cells(&mut self, cells: &[(usize, usize)])
        requires
            old(self).wf(),
        ensures
            final(self).wf(),
            final(self).width_spec() == old(self).width_spec(),
            final(self).height_spec() == old(self).height_spec(),
            forall|r: int, c: int|
                0 <= r < old(self).height_spec() && 0 <= c < old(self).width_spec() ==> final(self).cell_spec(r, c) == (if listed(cells@, r, c) {
                    Cell::Alive
                } else {
                    old(self).cell_spec(r, c)
                }),
    {
        let n = cells.len();
        let mut k: usize = 0;
        while k < n
            invariant
                k <= n,
                self.wf(),
                self.width == old(self).width,
                self.height == old(self).height,
                forall|r: int, c: int|
                    0 <= r < self.height_spec() && 0 <= c < self.width_spec()
                        ==> self.cell_spec(r, c) == (if listed(cells@.take(k as int), r, c) {
                        Cell::Alive
                    } else {
                        old(self).cell_spec(r, c)
                    }),
            decreases n - k,
        {
            let (row, col) = cells[k];
            let ghost prev = *self;
            if row < self.height && col < self.width {
                let i = self.get_index(row, col);
                self.cells[i] = Cell::Alive;
            }
            proof {
                assert(self.grid().len() == prev.grid().len());
                assert(self.grid().len() == self.width_spec() * self.height_spec());
                assert forall|r: int, c: int|
                    0 <= r < self.height_spec() && 0 <= c < self.width_spec()
                        implies self.cell_spec(r, c) == (if listed(
                        cells@.take(k + 1),
                        r,
                        c,
                    ) {
                        Cell::Alive
                    } else {
                        old(self).cell_spec(r, c)
                    }) by {
                    assert(cells@.take(k + 1)[k as int] == cells@[k as int]);
                    assert forall|j: int| 0 <= j < k implies cells@.take(k + 1)[j] == cells@.take(
                        k as int,
                    )[j] by {}
                    if r == row as int && c == col as int {
                        assert(listed(cells@.take(k + 1), r, c));
                    } else {
                        lemma_grid_index(self.width_spec(), self.height_spec(), r, c);
                        assert(0 <= self.idx(r, c) < self.grid().len());
                        if (row as int) < self.height_spec() && (col as int) < self.width_spec() {
                            lemma_grid_index_injective(
                                self.width_spec(),
                                self.height_spec(),
                                r,
                                c,
                                row as int,
                                col as int,
                            );
                        }
                        assert(self.cell_spec(r, c) == prev.cell_spec(r, c));
                        if listed(cells@.take(k + 1), r, c) {
                            let j = choose|j: int|
                                0 <= j < k + 1 && (#[trigger] cells@.take(k + 1)[j]).0 == r
                                    && cells@.take(k + 1)[j].1 == c;
                            if j < k {
                                assert(listed(cells@.take(k as int), r, c));
                            }
                        }
                        if listed(cells@.take(k as int), r, c) {
                            let j = choose|j: int|
                                0 <= j < k && (#[trigger] cells@.take(k as int)[j]).0 == r
                                    && cells@.take(k as int)[j].1 == c;
                            assert(cells@.take(k + 1)[j] == cells@.take(k as int)[j]);
                            assert(listed(cells@.take(k + 1), r, c));
                        }
                    }
                }
            }
            k += 1;
        }
        proof {
            assert(cells@.take(n as int) =~= cells@);
        }
    }

    /// Flip the state of an in-bounds cell; out of bounds, do nothing.
    pub fn toggle_cell(&mut self, row: usize, col: usize)
        requires
            old(self).wf(),
        ensures
            final(self).wf(),
            final(self).width_spec() == old(self).width_spec(),
            final(self).height_spec() == old(self).height_spec(),
            forall|r: int, c: int|
                final(self).cell_spec(r, c) == (if r == row as int && c == col as int && r < old(self).height_spec() && c < old(self).width_spec() {
                    if old(self).cell_spec(r, c) == Cell::Alive {
                        Cell::Dead
                    } else {
                        Cell::Alive
                    }
                } else {
                    old(self).cell_spec(r, c)
                }),
    {
        if row < self.height && col < self.width {
            let i = self.get_index(row, col);
            let cur = self.cells[i];
            let nxt = if matches!(cur, Cell::Alive) {
                Cell::Dead
            } else {
                Cell::Alive
            };
            self.cells[i] = nxt;
            proof {
                assert forall|r: int, c: int|
                    !(r == row as int && c == col as int) implies self.cell_spec(r, c) == old(self).cell_spec(r, c) by {
                    if 0 <= r < self.height_spec() && 0 <= c < self.width_spec() {
                        lemma_grid_index(self.width_spec(), self.height_spec(), r, c);
                        assert(0 <= self.idx(r, c) < self.grid().len());
                        lemma_grid_index_injective(
                            self.width_spec(),
                            self.height_spec(),
                            r,
                            c,
                            row as int,
                            col as int,
                        );
                    }
                }
            }
        }
    }

    /// Write `state` into an in-bounds cell; out of bounds, do nothing.
    pub fn set_cell(&mut self, row: usize, col: usize, state: Cell)
        requires
            old(self).wf(),
        ensures
            final(self).wf(),
            final(self).width_spec() == old(self).width_spec(),
            final(self).height_spec() == old(self).height_spec(),
            forall|r: int, c: int|
                final(self).cell_spec(r, c) == (if r == row as int && c == col as int && r < old(self).height_spec() && c < old(self).width_spec() {
                    state
                } else {
                    old(self).cell_spec(r, c)
                }),
    {
        if row < self.height && col < self.width {
            let i = self.get_index(row, col);
            self.cells[i] = state;
            proof {
                assert forall|r: int, c: int|
                    !(r == row as int && c == col as int) implies self.cell_spec(r, c) == old(self).cell_spec(r, c) by {
                    if 0 <= r < self.height_spec() && 0 <= c < self.width_spec() {
                        lemma_grid_index(self.width_spec(), self.height_spec(), r, c);
                        assert(0 <= self.idx(r, c) < self.grid().len());
                        lemma_grid_index_injective(
                            self.width_spec(),
                            self.height_spec(),
                            r,
                            c,
                            row as int,
                            col as int,
                        );
                    }
                }
            }
        }
    }

    /// The cell at `(row, col)`, dead outside the grid.
    pub fn get_cell(&self, row: usize, col: usize) -> (r: Cell)
        requires
            self.wf(),
        ensures
            r == self.cell_spec(row as int, col as int),
    {
        if row < self.height && col < self.width {
            let i = self.get_index(row, col);
            self.cells[i]
        } else {
            Cell::Dead
        }
    }

    /// Whether the cell at signed coordinates `(row, col)` is alive.
    fn is_alive_at(&self, row: i64, col: i64) -> (r: bool)
        requires
            self.wf(),
        ensures
            r == (self.cell_spec(row as int, col as int) == Cell::Alive),
    {
        if row < 0 || col < 0 {
            return false;
        }
        if row >= self.height as i64 || col >= self.width as i64 {
            return false;
        }
        let rr = row as usize;
        let cc = col as usize;
        let i = self.get_index(rr, cc);
        let cur = self.cells[i];
        matches!(cur, Cell::Alive)
    }

    /// Count the live cells among the eight neighbours of an in-bounds
    /// cell, treating everything beyond the border as dead.
    fn live_neighbor_count(&self, row: usize, col: usize) -> (k: u8)
        requires
            self.wf(),
            (row as int) < self.height_spec(),
            (col as int) < self.width_spec(),
        ensures
            k as nat == self.neighbors_spec(row as int, col as int),
    {
        proof {
            reveal(Universe::neighbors_spec);
        }
        let r = row as i64;
        let c = col as i64;
        (if self.is_alive_at(r - 1, c - 1) {
            1u8
        } else {
            0u8
        }) + (if self.is_alive_at(r - 1, c) {
            1u8
        } else {
            0u8
        }) + (if self.is_alive_at(r - 1, c + 1) {
            1u8
        } else {
            0u8
        }) + (if self.is_alive_at(r, c - 1) {
            1u8
        } else {
            0u8
        }) + (if self.is_alive_at(r, c + 1) {
            1u8
        } else {
            0u8
        }) + (if self.is_alive_at(r + 1, c - 1) {
            1u8
        } else {
            0u8
        }) + (if self.is_alive_at(r + 1, c) {
            1u8
        } else {
            0u8
        }) + (if self.is_alive_at(r + 1, c + 1) {
            1u8
        } else {
            0u8
        })
    }

    /// The next state of one in-bounds cell under the rule.
    fn next_cell(&self, row: usize, col: usize) -> (r: Cell)
        requires
            self.wf(),
            (row as int) < self.height_spec(),
            (col as int) < self.width_spec(),
        ensures
            r == (if crate::rule::life_rule(
                self.cell_spec(row as int, col as int) == Cell::Alive,
                self.neighbors_spec(row as int, col as int),
            ) {
                Cell::Alive
            } else {
                Cell::Dead
            }),
    {
        let nb = self.live_neighbor_count(row, col);
        let i = self.get_index(row, col);
        let cur = self.cells[i];
        let alive_next = crate::rule::next_state(matches!(cur, Cell::Alive), nb);
        if alive_next {
            Cell::Alive
        } else {
            Cell::Dead
        }
    }

    /// Advance the whole grid by one generation of the rule, reading
    /// the old state everywhere and writing the new one in place.
    #[verifier::loop_isolation(false)]
    #[verifier::rlimit(100)]
    #[verifier::spinoff_prover]
    pub fn tick(&mut self)
        requires
            old(self).wf(),
        ensures
            final(self).wf(),
            final(self).width_spec() == old(self).width_spec(),
            final(self).height_spec() == old(self).height_spec(),
            forall|r: int, c: int|
                0 <= r < old(self).height_spec() && 0 <= c < old(self).width_spec() ==> final(self).cell_spec(r, c) == (if crate::rule::life_rule(
                    old(self).cell_spec(r, c) == Cell::Alive,
                    old(self).neighbors_spec(r, c),
                ) {
                    Cell::Alive
                } else {
                    Cell::Dead
                }),
    {
        let w = self.width;
        let h = self.height;
        let mut next: Vec<Cell> = Vec::new();
        let mut row: usize = 0;
        while row < h
            invariant
                row <= h,
                next@.len() == row * self.width_spec(),
                forall|r: int, c: int|
                    0 <= r < row && 0 <= c < self.width_spec() ==> next@[self.idx(r, c)] == (
                    if crate::rule::life_rule(
                        self.cell_spec(r, c) == Cell::Alive,
                        self.neighbors_spec(r, c),
                    ) {
                        Cell::Alive
                    } else {
                        Cell::Dead
                    }),
            decreases h - row,
        {
            let mut col: usize = 0;
            while col < w
                invariant
                    row < h,
                    col <= w,
                    next@.len() == row * self.width_spec() + col,
                    forall|r: int, c: int|
                        (0 <= r < row && 0 <= c < self.width_spec()) || (r == row as int && 0 <= c
                            < col) ==> next@[self.idx(r, c)] == (if crate::rule::life_rule(
                            self.cell_spec(r, c) == Cell::Alive,
                            self.neighbors_spec(r, c),
                        ) {
                            Cell::Alive
                        } else {
                            Cell::Dead
                        }),
                decreases w - col,
            {
                proof {
                    lemma_grid_index(self.width_spec(), self.height_spec(), row as int, col as int);
                }
                let nc = self.next_cell(row, col);
                next.push(nc);
                proof {
                    assert forall|r: int, c: int|
                        (0 <= r < row && 0 <= c < self.width_spec()) || (r == row as int && 0 <= c
                            < col + 1) implies next@[self.idx(r, c)] == (
                    if crate::rule::life_rule(
                        self.cell_spec(r, c) == Cell::Alive,
                        self.neighbors_spec(r, c),
                    ) {
                        Cell::Alive
                    } else {
                        Cell::Dead
                    }) by {
                        if !(r == row as int && c == col as int) {
                            lemma_grid_index(self.width_spec(), self.height_spec(), r, c);
                            lemma_grid_index_lt(self.width_spec(), r, c, row as int, col as int);
                        }
                    }
                }
                col += 1;
            }
            proof {
                assert(row * self.width_spec() + self.width_spec() == (row + 1)
                    * self.width_spec()) by (nonlinear_arith);
            }
            row += 1;
        }
        self.cells = next;
        proof {
            assert(self.height_spec() * self.width_spec() == self.width_spec()
                * self.height_spec()) by (nonlinear_arith);
            assert forall|r: int, c: int|
                0 <= r < old(self).height_spec() && 0 <= c < old(self).width_spec() implies self.cell_spec(
                r,
                c,
            ) == (if crate::rule::life_rule(
                old(self).cell_spec(r, c) == Cell::Alive,
                old(self).neighbors_spec(r, c),
            ) {
                Cell::Alive
            } else {
                Cell::Dead
            }) by {
                lemma_grid_index(self.width_spec(), self.height_spec(), r, c);
            }
        }
    }

    /// Number of live cells on the grid.
    #[verifier::loop_isolation(false)]
    pub fn count_alive(&self) -> (r: usize)
        requires
            self.wf(),
        ensures
            r as nat == alive_count(self.grid()),
    {
        let n = self.cells.len();
        let mut cnt: usize = 0;
        let mut i: usize = 0;
        while i < n
            invariant
                i <= n,
                cnt <= i,
                cnt as nat == alive_count(self.grid().take(i as int)),
            decreases n - i,
        {
            let cur = self.cells[i];
            proof {
                assert(self.grid().take(i + 1).drop_last() =~= self.grid().take(i as int));
                assert(self.grid().take(i + 1).last() == self.grid()[i as int]);
            }
            if matches!(cur, Cell::Alive) {
                cnt += 1;
            }
            i += 1;
        }
        proof {
            assert(self.grid().take(n as int) =~= self.grid());
        }
        cnt
    }

    /// Place the Gosper glider gun with its relative coordinates
    /// shifted by the given offsets; cells that would fall outside the
    /// grid are ignored.
    pub fn set_gosper_glider_gun(&mut self, offset_row: usize, offset_col: usize)
        requires
            old(self).wf(),
            offset_row <= usize::MAX - 9,
            offset_col <= usize::MAX - 36,
        ensures
            final(self).wf(),
            final(self).width_spec() == old(self).width_spec(),
            final(self).height_spec() == old(self).height_spec(),
            forall|r: int, c: int|
                0 <= r < old(self).height_spec() && 0 <= c < old(self).width_spec() ==> final(self).cell_spec(r, c) == (if (exists|j: int|
                    0 <= j < gun_cells().len() && r == gun_cells()[j].0 + offset_row && c
                        == gun_cells()[j].1 + offset_col) {
                    Cell::Alive
                } else {
                    old(self).cell_spec(r, c)
                }),
    {
        let mut g: Vec<(usize, usize)> = Vec::new();
        g.push((offset_row + 5, offset_col + 1));
        g.push((offset_row + 5, offset_col + 2));
        g.push((offset_row + 6, offset_col + 1));
        g.push((offset_row + 6, offset_col + 2));
        g.push((offset_row + 3, offset_col + 13));
        g.push((offset_row + 3, offset_col + 14));
        g.push((offset_row + 4, offset_col + 12));
        g.push((offset_row + 4, offset_col + 16));
        g.push((offset_row + 5, offset_col + 11));
        g.push((offset_row + 5, offset_col + 17));
        g.push((offset_row + 6, offset_col + 11));
        g.push((offset_row + 6, offset_col + 15));
        g.push((offset_row + 6, offset_col + 17));
        g.push((offset_row + 6, offset_col + 18));
        g.push((offset_row + 7, offset_col + 11));
        g.push((offset_row + 7, offset_col + 17));
        g.push((offset_row + 8, offset_col + 12));
        g.push((offset_row + 8, offset_col + 16));
        g.push((offset_row + 9, offset_col + 13));
        g.push((offset_row + 9, offset_col + 14));
        g.push((offset_row + 1, offset_col + 25));
        g.push((offset_row + 2, offset_col + 23));
        g.push((offset_row + 2, offset_col + 25));
        g.push((offset_row + 3, offset_col + 21));
        g.push((offset_row + 3, offset_col + 22));
        g.push((offset_row + 4, offset_col + 21));
        g.push((offset_row + 4, offset_col + 22));
        g.push((offset_row + 5, offset_col + 21));
        g.push((offset_row + 5, offset_col + 22));
        g.push((offset_row + 6, offset_col + 23));
        g.push((offset_row + 6, offset_col + 25));
        g.push((offset_row + 7, offset_col + 25));
        g.push((offset_row + 3, offset_col + 35));
        g.push((offset_row + 3, offset_col + 36));
        g.push((offset_row + 4, offset_col + 35));
        g.push((offset_row + 4, offset_col + 36));
        proof {
            assert(g@.len() == gun_cells().len());
            assert forall|j: int| 0 <= j < g@.len() implies g@[j].0 == gun_cells()[j].0
                + offset_row && g@[j].1 == gun_cells()[j].1 + offset_col by {}
        }
        self.set_cells(g.as_slice());
        proof {
            assert forall|r: int, c: int| listed(g@, r, c) == (exists|j: int|
                0 <= j < gun_cells().len() && r == gun_cells()[j].0 + offset_row && c
                    == gun_cells()[j].1 + offset_col) by {
                if listed(g@, r, c) {
                    let j = choose|j: int|
                        0 <= j < g@.len() && (#[trigger] g@[j]).0 == r && g@[j].1 == c;
                    assert(r == gun_cells()[j].0 + offset_row && c == gun_cells()[j].1
                        + offset_col);
                }
                if exists|j: int|
                    0 <= j < gun_cells().len() && r == gun_cells()[j].0 + offset_row && c
                        == gun_cells()[j].1 + offset_col {
                    let j = choose|j: int|
                        0 <= j < gun_cells().len() && r == (#[trigger] gun_cells()[j]).0
                            + offset_row && c == gun_cells()[j].1 + offset_col;
                    assert(g@[j].0 == r && g@[j].1 == c);
                    assert(listed(g@, r, c));
                }
            }
        }
    }

    /// Scatter live cells over the grid from a freshly drawn seed:
    /// some deterministic pattern of that seed fills the grid, the
    /// dimensions stay as they are.  The seed comes from `rand` rather
    /// than a hash of the system time; for an opaque random draw the
    /// two are observably equivalent.
    #[verifier::loop_isolation(false)]
    pub fn randomize(&mut self)
        requires
            old(self).wf(),
        ensures
            final(self).wf(),
            final(self).width_spec() == old(self).width_spec(),
            final(self).height_spec() == old(self).height_spec(),
            exists|s: u64| seeded_grid(final(self).grid(), s),
    {
        let seed = random_seed();
        let n = self.cells.len();
        let mut i: usize = 0;
        while i < n
            invariant
                i <= n,
                n == self.grid().len(),
                self.width == old(self).width,
                self.height == old(self).height,
                forall|j: int| 0 <= j < i ==> self.grid()[j] == seeded_cell(seed, j),
            decreases n - i,
        {
            let x = seed.wrapping_mul((i as u64) + 1) % 100;
            self.cells[i] = if x < 30 {
                Cell::Alive
            } else {
                Cell::Dead
            };
            i += 1;
        }
        proof {
            assert(seeded_grid(self.grid(), seed));
        }
    }
}

} // verus!
