//! The update rule of the automaton, shared by every engine in the
//! crate, together with the evolution it induces on a whole board.
//!
//! A cell survives if it is alive with exactly two or three live
//! neighbours (eight-cell Moore neighbourhood), a dead cell is born with
//! exactly three live neighbours, and every other combination is dead.
//! A board is a configuration `spec_fn(int, int) -> bool` over the
//! infinite plane; `life_after` applies the rule generation by
//! generation, and the lemmas below capture the three facts every
//! engine proof leans on: evolution is local (a cell after `k`
//! generations depends only on the cells within distance `k`), it
//! commutes with translation, and generations compose.

use vstd::prelude::*;

verus! {

/// What the next state of a cell is, given its current state and the
/// number of live cells among its eight neighbours.
pub open spec fn life_rule(alive: bool, neighbors: nat) -> bool {
    if alive {
        neighbors == 2 || neighbors == 3
    } else {
        neighbors == 3
    }
}

/// Executable form of [`life_rule`].
pub fn next_state(alive: bool, neighbors: u8) -> (r: bool)
    ensures
        r == life_rule(alive, neighbors as nat),
{
    if alive {
        neighbors == 2 || neighbors == 3
    } else {
        neighbors == 3
    }
}

/// Number of live cells among the eight neighbours of `(x, y)` in a
/// configuration of the whole plane.
pub open spec fn live_neighbors(c: spec_fn(int, int) -> bool, x: int, y: int) -> nat {
    (if c(x - 1, y - 1) {
        1nat
    } else {
        0nat
    }) + (if c(x, y - 1) {
        1nat
    } else {
        0nat
    }) + (if c(x + 1, y - 1) {
        1nat
    } else {
        0nat
    }) + (if c(x - 1, y) {
        1nat
    } else {
        0nat
    }) + (if c(x + 1, y) {
        1nat
    } else {
        0nat
    }) + (if c(x - 1, y + 1) {
        1nat
    } else {
        0nat
    }) + (if c(x, y + 1) {
        1nat
    } else {
        0nat
    }) + (if c(x + 1, y + 1) {
        1nat
    } else {
        0nat
    })
}

/// The configuration after `k` generations of the rule.
pub open spec fn life_after(c: spec_fn(int, int) -> bool, k: nat) -> spec_fn(int, int) -> bool
    decreases k,
{
    if k == 0 {
        c
    } else {
        let prev = life_after(c, (k - 1) as nat);
        |x: int, y: int| life_rule(prev(x, y), live_neighbors(prev, x, y))
    }
}

/// The configuration shifted so that its cell `(x + dx, y + dy)` is
/// read at `(x, y)`.
pub open spec fn shifted(c: spec_fn(int, int) -> bool, dx: int, dy: int) -> spec_fn(
    int,
    int,
) -> bool {
    |x: int, y: int| c(x + dx, y + dy)
}

/// Evolution is local: influence travels at most one cell per
/// generation, so two configurations that agree on the square of
/// radius `k` around `(x, y)` agree at `(x, y)` after `k` generations.
pub proof fn lemma_life_after_local(
    c1: spec_fn(int, int) -> bool,
    c2: spec_fn(int, int) -> bool,
    k: nat,
    x: int,
    y: int,
)
    requires
        forall|a: int, b: int|
            x - k <= a <= x + k && y - k <= b <= y + k ==> #[trigger] c1(a, b) == c2(a, b),
    ensures
        life_after(c1, k)(x, y) == life_after(c2, k)(x, y),
    decreases k,
{
    if k > 0 {
        let p1 = life_after(c1, (k - 1) as nat);
        let p2 = life_after(c2, (k - 1) as nat);
        assert forall|a: int, b: int|
            x - 1 <= a <= x + 1 && y - 1 <= b <= y + 1 implies #[trigger] p1(a, b) == p2(
            a,
            b,
        ) by {
            lemma_life_after_local(c1, c2, (k - 1) as nat, a, b);
        }
        assert(life_after(c1, k)(x, y) == life_rule(p1(x, y), live_neighbors(p1, x, y)));
        assert(life_after(c2, k)(x, y) == life_rule(p2(x, y), live_neighbors(p2, x, y)));
        assert(live_neighbors(p1, x, y) == live_neighbors(p2, x, y));
    }
}

/// Two configurations that agree everywhere evolve identically.
pub proof fn lemma_life_after_ext(
    c1: spec_fn(int, int) -> bool,
    c2: spec_fn(int, int) -> bool,
    k: nat,
    x: int,
    y: int,
)
    requires
        forall|a: int, b: int| #[trigger] c1(a, b) == c2(a, b),
    ensures
        life_after(c1, k)(x, y) == life_after(c2, k)(x, y),
{
    lemma_life_after_local(c1, c2, k, x, y);
}

/// Evolution commutes with translation.
pub proof fn lemma_life_after_shift(
    c: spec_fn(int, int) -> bool,
    dx: int,
    dy: int,
    k: nat,
    x: int,
    y: int,
)
    ensures
        life_after(shifted(c, dx, dy), k)(x, y) == life_after(c, k)(x + dx, y + dy),
    decreases k,
{
    if k == 0 {
        assert(life_after(shifted(c, dx, dy), 0)(x, y) == c(x + dx, y + dy));
    } else {
        let ps = life_after(shifted(c, dx, dy), (k - 1) as nat);
        let p = life_after(c, (k - 1) as nat);
        assert forall|a: int, b: int|
            x - 1 <= a <= x + 1 && y - 1 <= b <= y + 1 implies #[trigger] ps(a, b) == p(
            a + dx,
            b + dy,
        ) by {
            lemma_life_after_shift(c, dx, dy, (k - 1) as nat, a, b);
        }
        assert(life_after(shifted(c, dx, dy), k)(x, y) == life_rule(
            ps(x, y),
            live_neighbors(ps, x, y),
        ));
        assert(life_after(c, k)(x + dx, y + dy) == life_rule(
            p(x + dx, y + dy),
            live_neighbors(p, x + dx, y + dy),
        ));
        assert(live_neighbors(ps, x, y) == live_neighbors(p, x + dx, y + dy));
    }
}

/// Generations compose: advancing by `j` and then by `k` is advancing
/// by `j + k`.
pub proof fn lemma_life_after_add(c: spec_fn(int, int) -> bool, j: nat, k: nat, x: int, y: int)
    ensures
        life_after(life_after(c, j), k)(x, y) == life_after(c, j + k)(x, y),
    decreases k,
{
    if k > 0 {
        let pi = life_after(life_after(c, j), (k - 1) as nat);
        let po = life_after(c, (j + k - 1) as nat);
        assert forall|a: int, b: int|
            x - 1 <= a <= x + 1 && y - 1 <= b <= y + 1 implies #[trigger] pi(a, b) == po(
            a,
            b,
        ) by {
            lemma_life_after_add(c, j, (k - 1) as nat, a, b);
        }
        assert(life_after(life_after(c, j), k)(x, y) == life_rule(
            pi(x, y),
            live_neighbors(pi, x, y),
        ));
        assert(life_after(c, j + k)(x, y) == life_rule(po(x, y), live_neighbors(po, x, y)));
        assert(live_neighbors(pi, x, y) == live_neighbors(po, x, y));
    }
}

} // verus!
