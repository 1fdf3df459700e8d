//! The Hashlife engine: an arbitrarily large two-state cellular automaton
//! held as a quadtree of canonical, structurally shared nodes.
//!
//! Nodes live in an arena (`Vec<QuadTree>`) and refer to each other by
//! index ("handle").  The arena is the canonical node table: no two
//! entries ever carry the same (level, children / alive) key, so
//! structural equality of whole subtrees reduces to equality of handles,
//! and the memoized evolution step may be keyed by handle.  Handles `0`
//! and `1` are the two level-0 singletons (dead and alive).

use vstd::arithmetic::power2::{
    lemma2_to64, lemma_pow2_adds, lemma_pow2_pos, lemma_pow2_strictly_increases, pow2,
};
use vstd::bits::{lemma_u64_pow2_no_overflow, lemma_u64_shl_is_mul};
use vstd::prelude::*;

verus! {

/// Largest node level the engine materializes.  A level-31 node spans
/// `2^31` cells per side, its population fits comfortably in a `u64`,
/// and every coordinate stays inside `i64` arithmetic.
pub const MAX_LEVEL: u32 = 31;

/// One quadtree node: a square region of side `2^level`.
///
/// For `level > 0` the four fields `nw`, `ne`, `sw`, `se` are arena
/// handles of the four quadrants, one level below.  For `level == 0`
/// the node is a single cell and `alive` gives its state; the child
/// handles are pinned to `0`.  `population` is the number of live cells
/// in the region, fixed at construction and never recomputed.
#[derive(Clone, Copy)]
pub struct QuadTree {
    pub level: u32,
    pub nw: usize,
    pub ne: usize,
    pub sw: usize,
    pub se: usize,
    pub alive: bool,
    pub population: u64,
}

/// The level-0 record for a dead (`alive == false`) or live cell.
pub open spec fn leaf_record(alive: bool) -> QuadTree {
    QuadTree {
        level: 0,
        nw: 0,
        ne: 0,
        sw: 0,
        se: 0,
        alive,
        population: if alive {
            1u64
        } else {
            0u64
        },
    }
}

/// Two records collide in the canonical table: same level and, at level
/// 0, the same cell state, above it the same four children.  Since
/// interior nodes pin `alive` to `false` and leaves pin the child
/// handles to `0`, plain field equality is the right comparison.
pub open spec fn same_key(a: QuadTree, b: QuadTree) -> bool {
    &&& a.level == b.level
    &&& a.nw == b.nw
    &&& a.ne == b.ne
    &&& a.sw == b.sw
    &&& a.se == b.se
    &&& a.alive == b.alive
}

/// Internal consistency of the arena entry at index `i`: children sit
/// strictly earlier in the arena (the structure is acyclic), they are
/// exactly one level below, and the stored population is the sum of the
/// children's populations (at level 0: `1` for a live cell, `0` for a
/// dead one) and never exceeds the region's area.
pub open spec fn node_ok(nodes: Seq<QuadTree>, i: int) -> bool {
    let n = nodes[i];
    &&& n.level <= MAX_LEVEL
    &&& n.population as nat <= pow2((2 * n.level) as nat)
    &&& if n.level == 0 {
        &&& n.nw == 0usize
        &&& n.ne == 0usize
        &&& n.sw == 0usize
        &&& n.se == 0usize
        &&& n.population == (if n.alive {
            1u64
        } else {
            0u64
        })
    } else {
        &&& n.alive == false
        &&& (n.nw as int) < i
        &&& (n.ne as int) < i
        &&& (n.sw as int) < i
        &&& (n.se as int) < i
        &&& nodes[n.nw as int].level + 1 == n.level
        &&& nodes[n.ne as int].level + 1 == n.level
        &&& nodes[n.sw as int].level + 1 == n.level
        &&& nodes[n.se as int].level + 1 == n.level
        &&& n.population as int == nodes[n.nw as int].population as int
            + nodes[n.ne as int].population as int + nodes[n.sw as int].population as int
            + nodes[n.se as int].population as int
    }
}

/// No two arena entries share a key: each (level, children / alive)
/// combination has exactly one canonical instance.
pub open spec fn canonical(nodes: Seq<QuadTree>) -> bool {
    forall|i: int, j: int|
        0 <= i < nodes.len() && 0 <= j < nodes.len() && i != j ==> !same_key(
            nodes[i],
            nodes[j],
        )
}

/// The whole arena is well formed: the two leaf singletons sit at
/// handles 0 and 1, every entry is internally consistent, and the table
/// is canonical.
pub open spec fn arena_ok(nodes: Seq<QuadTree>) -> bool {
    &&& nodes.len() >= 2
    &&& nodes[0] == leaf_record(false)
    &&& nodes[1] == leaf_record(true)
    &&& forall|i: int| 0 <= i < nodes.len() ==> #[trigger] node_ok(nodes, i)
    &&& canonical(nodes)
}

/// The cell at local coordinates `(x, y)` of the region of node `h`,
/// with `x` growing eastward and `y` southward, both in
/// `[0, 2^level)`.  Out-of-range handles read as dead; the recursion
/// only ever descends to strictly smaller handles, which holds for
/// every well-formed arena.
pub open spec fn cell_at(nodes: Seq<QuadTree>, h: int, x: int, y: int) -> bool
    decreases h,
{
    if h < 0 || h >= nodes.len() {
        false
    } else {
        let n = nodes[h];
        if n.level == 0 {
            n.alive
        } else {
            let half = pow2((n.level - 1) as nat) as int;
            let c = (if x < half {
                if y < half {
                    n.nw
                } else {
                    n.sw
                }
            } else {
                if y < half {
                    n.ne
                } else {
                    n.se
                }
            }) as int;
            let xx = if x < half {
                x
            } else {
                x - half
            };
            let yy = if y < half {
                y
            } else {
                y - half
            };
            if 0 <= c < h {
                cell_at(nodes, c, xx, yy)
            } else {
                false
            }
        }
    }
}

/// Appending entries to the arena never changes what an existing node's
/// region reads as: `cell_at` only inspects handles `<= h`.
pub proof fn lemma_cell_at_grow(small: Seq<QuadTree>, big: Seq<QuadTree>, h: int, x: int, y: int)
    requires
        small.len() <= big.len(),
        forall|i: int| 0 <= i < small.len() ==> small[i] == big[i],
        h < small.len(),
    ensures
        cell_at(big, h, x, y) == cell_at(small, h, x, y),
    decreases h,
{
    if 0 <= h {
        let n = small[h];
        if n.level > 0 {
            let half = pow2((n.level - 1) as nat) as int;
            let c = (if x < half {
                if y < half {
                    n.nw
                } else {
                    n.sw
                }
            } else {
                if y < half {
                    n.ne
                } else {
                    n.se
                }
            }) as int;
            let xx = if x < half {
                x
            } else {
                x - half
            };
            let yy = if y < half {
                y
            } else {
                y - half
            };
            if 0 <= c < h {
                lemma_cell_at_grow(small, big, c, xx, yy);
            }
        }
    }
}

/// A node with population zero reads as dead everywhere.
pub proof fn lemma_empty_node_cells(nodes: Seq<QuadTree>, h: int, x: int, y: int)
    requires
        arena_ok(nodes),
        0 <= h < nodes.len(),
        nodes[h].population == 0,
    ensures
        !cell_at(nodes, h, x, y),
    decreases h,
{
    let n = nodes[h];
    assert(node_ok(nodes, h));
    if n.level > 0 {
        let half = pow2((n.level - 1) as nat) as int;
        let c = (if x < half {
            if y < half {
                n.nw
            } else {
                n.sw
            }
        } else {
            if y < half {
                n.ne
            } else {
                n.se
            }
        }) as int;
        let xx = if x < half {
            x
        } else {
            x - half
        };
        let yy = if y < half {
            y
        } else {
            y - half
        };
        assert(nodes[c].population == 0);
        lemma_empty_node_cells(nodes, c, xx, yy);
    }
}

/// Number of live cells among the eight neighbours of `(x, y)` inside
/// node `h`'s region.
pub open spec fn neighbors4(nodes: Seq<QuadTree>, h: int, x: int, y: int) -> nat {
    (if cell_at(nodes, h, x - 1, y - 1) {
        1nat
    } else {
        0nat
    }) + (if cell_at(nodes, h, x, y - 1) {
        1nat
    } else {
        0nat
    }) + (if cell_at(nodes, h, x + 1, y - 1) {
        1nat
    } else {
        0nat
    }) + (if cell_at(nodes, h, x - 1, y) {
        1nat
    } else {
        0nat
    }) + (if cell_at(nodes, h, x + 1, y) {
        1nat
    } else {
        0nat
    }) + (if cell_at(nodes, h, x - 1, y + 1) {
        1nat
    } else {
        0nat
    }) + (if cell_at(nodes, h, x, y + 1) {
        1nat
    } else {
        0nat
    }) + (if cell_at(nodes, h, x + 1, y + 1) {
        1nat
    } else {
        0nat
    })
}

/// Descend from `h` to the node of level `lvl` whose aligned block
/// contains local coordinates `(x, y)`.
pub open spec fn subnode_at(nodes: Seq<QuadTree>, h: int, x: int, y: int, lvl: int) -> int
    decreases h,
{
    if h < 0 || h >= nodes.len() {
        h
    } else {
        let n = nodes[h];
        if n.level <= lvl {
            h
        } else {
            let half = pow2((n.level - 1) as nat) as int;
            let c = (if x < half {
                if y < half {
                    n.nw
                } else {
                    n.sw
                }
            } else {
                if y < half {
                    n.ne
                } else {
                    n.se
                }
            }) as int;
            let xx = if x < half {
                x
            } else {
                x - half
            };
            let yy = if y < half {
                y
            } else {
                y - half
            };
            if 0 <= c < h {
                subnode_at(nodes, c, xx, yy, lvl)
            } else {
                c
            }
        }
    }
}

/// Node `h`'s region as a configuration of the whole plane: its cells
/// at local coordinates, dead everywhere else.
pub open spec fn node_config(nodes: Seq<QuadTree>, h: int) -> spec_fn(int, int) -> bool {
    |x: int, y: int|
        0 <= x < pow2(nodes[h].level as nat) && 0 <= y < pow2(nodes[h].level as nat) && cell_at(
            nodes,
            h,
            x,
            y,
        )
}

/// What advancing node `h` must produce: the result node `r`, one
/// level smaller, holds the exact geometric center of `h`'s region
/// moved forward by `2^(level-2)` generations of the rule, with
/// everything outside `h`'s region taken as dead.
pub open spec fn advanced_ok(pre: Seq<QuadTree>, h: int, post: Seq<QuadTree>, r: int) -> bool {
    let q = pow2((pre[h].level - 2) as nat) as int;
    forall|a: int, b: int|
        0 <= a < 2 * q && 0 <= b < 2 * q ==> #[trigger] cell_at(post, r, a, b)
            == crate::rule::life_after(node_config(pre, h), pow2((pre[h].level - 2) as nat))(
            a + q,
            b + q,
        )
}

/// One level of descent: each child's cells, read through the parent
/// at the child's offset.
pub proof fn lemma_child_cells(nodes: Seq<QuadTree>, h: int)
    requires
        arena_ok(nodes),
        0 <= h < nodes.len(),
        nodes[h].level >= 1,
    ensures
        forall|x: int, y: int|
            0 <= x < pow2((nodes[h].level - 1) as nat) && 0 <= y < pow2(
                (nodes[h].level - 1) as nat,
            ) ==> #[trigger] cell_at(nodes, nodes[h].nw as int, x, y) == cell_at(nodes, h, x, y),
        forall|x: int, y: int|
            0 <= x < pow2((nodes[h].level - 1) as nat) && 0 <= y < pow2(
                (nodes[h].level - 1) as nat,
            ) ==> #[trigger] cell_at(nodes, nodes[h].ne as int, x, y) == cell_at(
                nodes,
                h,
                x + pow2((nodes[h].level - 1) as nat),
                y,
            ),
        forall|x: int, y: int|
            0 <= x < pow2((nodes[h].level - 1) as nat) && 0 <= y < pow2(
                (nodes[h].level - 1) as nat,
            ) ==> #[trigger] cell_at(nodes, nodes[h].sw as int, x, y) == cell_at(
                nodes,
                h,
                x,
                y + pow2((nodes[h].level - 1) as nat),
            ),
        forall|x: int, y: int|
            0 <= x < pow2((nodes[h].level - 1) as nat) && 0 <= y < pow2(
                (nodes[h].level - 1) as nat,
            ) ==> #[trigger] cell_at(nodes, nodes[h].se as int, x, y) == cell_at(
                nodes,
                h,
                x + pow2((nodes[h].level - 1) as nat),
                y + pow2((nodes[h].level - 1) as nat),
            ),
{
    assert(node_ok(nodes, h));
    lemma_pow2_pos((nodes[h].level - 1) as nat);
}

/// Assembling a node whose four children each read one quadrant of a
/// configuration: the node reads the configuration across its region.
pub proof fn lemma_quad_assemble(
    nodes: Seq<QuadTree>,
    p: int,
    g: spec_fn(int, int) -> bool,
    ox: int,
    oy: int,
)
    requires
        arena_ok(nodes),
        0 <= p < nodes.len(),
        nodes[p].level >= 1,
        forall|x: int, y: int|
            0 <= x < pow2((nodes[p].level - 1) as nat) && 0 <= y < pow2(
                (nodes[p].level - 1) as nat,
            ) ==> #[trigger] cell_at(nodes, nodes[p].nw as int, x, y) == g(x + ox, y + oy),
        forall|x: int, y: int|
            0 <= x < pow2((nodes[p].level - 1) as nat) && 0 <= y < pow2(
                (nodes[p].level - 1) as nat,
            ) ==> #[trigger] cell_at(nodes, nodes[p].ne as int, x, y) == g(
                x + ox + pow2((nodes[p].level - 1) as nat),
                y + oy,
            ),
        forall|x: int, y: int|
            0 <= x < pow2((nodes[p].level - 1) as nat) && 0 <= y < pow2(
                (nodes[p].level - 1) as nat,
            ) ==> #[trigger] cell_at(nodes, nodes[p].sw as int, x, y) == g(
                x + ox,
                y + oy + pow2((nodes[p].level - 1) as nat),
            ),
        forall|x: int, y: int|
            0 <= x < pow2((nodes[p].level - 1) as nat) && 0 <= y < pow2(
                (nodes[p].level - 1) as nat,
            ) ==> #[trigger] cell_at(nodes, nodes[p].se as int, x, y) == g(
                x + ox + pow2((nodes[p].level - 1) as nat),
                y + oy + pow2((nodes[p].level - 1) as nat),
            ),
    ensures
        forall|x: int, y: int|
            0 <= x < pow2(nodes[p].level as nat) && 0 <= y < pow2(nodes[p].level as nat)
                ==> #[trigger] cell_at(nodes, p, x, y) == g(x + ox, y + oy),
{
    assert(node_ok(nodes, p));
    let hf = pow2((nodes[p].level - 1) as nat) as int;
    vstd::arithmetic::power2::lemma_pow2_unfold(nodes[p].level as nat);
    assert forall|x: int, y: int|
        0 <= x < pow2(nodes[p].level as nat) && 0 <= y < pow2(nodes[p].level as nat)
            implies #[trigger] cell_at(nodes, p, x, y) == g(x + ox, y + oy) by {
        if x < hf {
            if y < hf {
                assert(cell_at(nodes, p, x, y) == cell_at(nodes, nodes[p].nw as int, x, y));
            } else {
                assert(cell_at(nodes, p, x, y) == cell_at(nodes, nodes[p].sw as int, x, y - hf));
            }
        } else {
            if y < hf {
                assert(cell_at(nodes, p, x, y) == cell_at(nodes, nodes[p].ne as int, x - hf, y));
            } else {
                assert(cell_at(nodes, p, x, y) == cell_at(
                    nodes,
                    nodes[p].se as int,
                    x - hf,
                    y - hf,
                ));
            }
        }
    }
}

/// `advanced_ok` is stable under growth of either arena: records never
/// change, so neither side's cells do.
pub proof fn lemma_advanced_ok_frame(
    pre0: Seq<QuadTree>,
    pre1: Seq<QuadTree>,
    post0: Seq<QuadTree>,
    post1: Seq<QuadTree>,
    h: int,
    r: int,
)
    requires
        grows_to(pre0, pre1),
        0 <= h < pre0.len(),
        grows_to(post0, post1),
        0 <= r < post0.len(),
    ensures
        advanced_ok(pre0, h, post0, r) == advanced_ok(pre1, h, post1, r),
{
    let qn = pow2((pre0[h].level - 2) as nat);
    let q = qn as int;
    assert forall|a: int, b: int| 0 <= a < 2 * q && 0 <= b < 2 * q implies {
        &&& #[trigger] cell_at(post0, r, a, b) == cell_at(post1, r, a, b)
        &&& crate::rule::life_after(node_config(pre0, h), qn)(a + q, b + q)
            == crate::rule::life_after(node_config(pre1, h), qn)(a + q, b + q)
    } by {
        lemma_cell_at_grow(post0, post1, r, a, b);
        assert forall|x2: int, y2: int| #[trigger] node_config(pre1, h)(x2, y2) == node_config(
            pre0,
            h,
        )(x2, y2) by {
            lemma_cell_at_grow(pre0, pre1, h, x2, y2);
        }
        crate::rule::lemma_life_after_ext(
            node_config(pre0, h),
            node_config(pre1, h),
            qn,
            a + q,
            b + q,
        );
    }
    if advanced_ok(pre0, h, post0, r) {
        assert forall|a: int, b: int|
            0 <= a < 2 * q && 0 <= b < 2 * q implies #[trigger] cell_at(post1, r, a, b)
            == crate::rule::life_after(node_config(pre1, h), qn)(a + q, b + q) by {
            assert(cell_at(post0, r, a, b) == crate::rule::life_after(node_config(pre0, h), qn)(
                a + q,
                b + q,
            ));
        }
    }
    if advanced_ok(pre1, h, post1, r) {
        assert forall|a: int, b: int|
            0 <= a < 2 * q && 0 <= b < 2 * q implies #[trigger] cell_at(post0, r, a, b)
            == crate::rule::life_after(node_config(pre0, h), qn)(a + q, b + q) by {
            assert(cell_at(post1, r, a, b) == crate::rule::life_after(node_config(pre1, h), qn)(
                a + q,
                b + q,
            ));
        }
    }
}

/// A result that is correct for a node which itself reads a larger
/// configuration at a fixed offset is correct for that configuration:
/// the light cone of the advanced center never leaves the node's
/// region.
pub proof fn lemma_rebase(
    pre: Seq<QuadTree>,
    t: int,
    post: Seq<QuadTree>,
    r: int,
    g: spec_fn(int, int) -> bool,
    ox: int,
    oy: int,
)
    requires
        0 <= t < pre.len(),
        pre[t].level >= 2,
        advanced_ok(pre, t, post, r),
        forall|x: int, y: int|
            0 <= x < pow2(pre[t].level as nat) && 0 <= y < pow2(pre[t].level as nat)
                ==> #[trigger] cell_at(pre, t, x, y) == g(x + ox, y + oy),
    ensures
        forall|a: int, b: int|
            0 <= a < 2 * pow2((pre[t].level - 2) as nat) && 0 <= b < 2 * pow2(
                (pre[t].level - 2) as nat,
            ) ==> #[trigger] cell_at(post, r, a, b) == crate::rule::life_after(
                g,
                pow2((pre[t].level - 2) as nat),
            )(a + pow2((pre[t].level - 2) as nat) + ox, b + pow2((pre[t].level - 2) as nat) + oy),
{
    let qn = pow2((pre[t].level - 2) as nat);
    let q = qn as int;
    vstd::arithmetic::power2::lemma_pow2_unfold(pre[t].level as nat);
    vstd::arithmetic::power2::lemma_pow2_unfold((pre[t].level - 1) as nat);
    assert(pow2(pre[t].level as nat) == 4 * q);
    assert forall|a: int, b: int|
        0 <= a < 2 * q && 0 <= b < 2 * q implies #[trigger] cell_at(post, r, a, b)
        == crate::rule::life_after(g, qn)(a + q + ox, b + q + oy) by {
        assert(cell_at(post, r, a, b) == crate::rule::life_after(node_config(pre, t), qn)(
            a + q,
            b + q,
        ));
        assert forall|x2: int, y2: int|
            (a + q) - qn <= x2 <= (a + q) + qn && (b + q) - qn <= y2 <= (b + q)
                + qn implies #[trigger] node_config(pre, t)(x2, y2) == crate::rule::shifted(
            g,
            ox,
            oy,
        )(x2, y2) by {
            assert(0 <= x2 < 4 * q && 0 <= y2 < 4 * q);
            assert(cell_at(pre, t, x2, y2) == g(x2 + ox, y2 + oy));
        }
        crate::rule::lemma_life_after_local(
            node_config(pre, t),
            crate::rule::shifted(g, ox, oy),
            qn,
            a + q,
            b + q,
        );
        crate::rule::lemma_life_after_shift(g, ox, oy, qn, a + q, b + q);
    }
}

/// Node `t` of the bigger arena reads node `h`'s cells at a fixed
/// offset: the sub-square relation the evolution engine tiles with.
pub open spec fn reads_at(
    pre: Seq<QuadTree>,
    h: int,
    post: Seq<QuadTree>,
    t: int,
    ox: int,
    oy: int,
) -> bool {
    forall|x: int, y: int|
        0 <= x < pow2((pre[h].level - 1) as nat) && 0 <= y < pow2((pre[h].level - 1) as nat)
            ==> #[trigger] cell_at(post, t, x, y) == cell_at(pre, h, x + ox, y + oy)
}

/// Two levels of descent: each grandchild that the engine tiles with,
/// read through its grandparent at the grandchild's offset.
pub proof fn lemma_grandchild_cells(nodes: Seq<QuadTree>, h: int)
    requires
        arena_ok(nodes),
        0 <= h < nodes.len(),
        nodes[h].level >= 2,
    ensures
        forall|x: int, y: int|
            0 <= x < pow2((nodes[h].level - 2) as nat) && 0 <= y < pow2(
                (nodes[h].level - 2) as nat,
            ) ==> #[trigger] cell_at(nodes, nodes[nodes[h].nw as int].ne as int, x, y) == cell_at(
                nodes,
                h,
                x + pow2((nodes[h].level - 2) as nat),
                y,
            ),
        forall|x: int, y: int|
            0 <= x < pow2((nodes[h].level - 2) as nat) && 0 <= y < pow2(
                (nodes[h].level - 2) as nat,
            ) ==> #[trigger] cell_at(nodes, nodes[nodes[h].nw as int].sw as int, x, y) == cell_at(
                nodes,
                h,
                x,
                y + pow2((nodes[h].level - 2) as nat),
            ),
        forall|x: int, y: int|
            0 <= x < pow2((nodes[h].level - 2) as nat) && 0 <= y < pow2(
                (nodes[h].level - 2) as nat,
            ) ==> #[trigger] cell_at(nodes, nodes[nodes[h].nw as int].se as int, x, y) == cell_at(
                nodes,
                h,
                x + pow2((nodes[h].level - 2) as nat),
                y + pow2((nodes[h].level - 2) as nat),
            ),
        forall|x: int, y: int|
            0 <= x < pow2((nodes[h].level - 2) as nat) && 0 <= y < pow2(
                (nodes[h].level - 2) as nat,
            ) ==> #[trigger] cell_at(nodes, nodes[nodes[h].ne as int].nw as int, x, y) == cell_at(
                nodes,
                h,
                x + 2 * pow2((nodes[h].level - 2) as nat),
                y,
            ),
        forall|x: int, y: int|
            0 <= x < pow2((nodes[h].level - 2) as nat) && 0 <= y < pow2(
                (nodes[h].level - 2) as nat,
            ) ==> #[trigger] cell_at(nodes, nodes[nodes[h].ne as int].sw as int, x, y) == cell_at(
                nodes,
                h,
                x + 2 * pow2((nodes[h].level - 2) as nat),
                y + pow2((nodes[h].level - 2) as nat),
            ),
        forall|x: int, y: int|
            0 <= x < pow2((nodes[h].level - 2) as nat) && 0 <= y < pow2(
                (nodes[h].level - 2) as nat,
            ) ==> #[trigger] cell_at(nodes, nodes[nodes[h].ne as int].se as int, x, y) == cell_at(
                nodes,
                h,
                x + 3 * pow2((nodes[h].level - 2) as nat),
                y + pow2((nodes[h].level - 2) as nat),
            ),
        forall|x: int, y: int|
            0 <= x < pow2((nodes[h].level - 2) as nat) && 0 <= y < pow2(
                (nodes[h].level - 2) as nat,
            ) ==> #[trigger] cell_at(nodes, nodes[nodes[h].sw as int].nw as int, x, y) == cell_at(
                nodes,
                h,
                x,
                y + 2 * pow2((nodes[h].level - 2) as nat),
            ),
        forall|x: int, y: int|
            0 <= x < pow2((nodes[h].level - 2) as nat) && 0 <= y < pow2(
                (nodes[h].level - 2) as nat,
            ) ==> #[trigger] cell_at(nodes, nodes[nodes[h].sw as int].ne as int, x, y) == cell_at(
                nodes,
                h,
                x + pow2((nodes[h].level - 2) as nat),
                y + 2 * pow2((nodes[h].level - 2) as nat),
            ),
        forall|x: int, y: int|
            0 <= x < pow2((nodes[h].level - 2) as nat) && 0 <= y < pow2(
                (nodes[h].level - 2) as nat,
            ) ==> #[trigger] cell_at(nodes, nodes[nodes[h].sw as int].se as int, x, y) == cell_at(
                nodes,
                h,
                x + pow2((nodes[h].level - 2) as nat),
                y + 3 * pow2((nodes[h].level - 2) as nat),
            ),
        forall|x: int, y: int|
            0 <= x < pow2((nodes[h].level - 2) as nat) && 0 <= y < pow2(
                (nodes[h].level - 2) as nat,
            ) ==> #[trigger] cell_at(nodes, nodes[nodes[h].se as int].nw as int, x, y) == cell_at(
                nodes,
                h,
                x + 2 * pow2((nodes[h].level - 2) as nat),
                y + 2 * pow2((nodes[h].level - 2) as nat),
            ),
        forall|x: int, y: int|
            0 <= x < pow2((nodes[h].level - 2) as nat) && 0 <= y < pow2(
                (nodes[h].level - 2) as nat,
            ) ==> #[trigger] cell_at(nodes, nodes[nodes[h].se as int].ne as int, x, y) == cell_at(
                nodes,
                h,
                x + 3 * pow2((nodes[h].level - 2) as nat),
                y + 2 * pow2((nodes[h].level - 2) as nat),
            ),
        forall|x: int, y: int|
            0 <= x < pow2((nodes[h].level - 2) as nat) && 0 <= y < pow2(
                (nodes[h].level - 2) as nat,
            ) ==> #[trigger] cell_at(nodes, nodes[nodes[h].se as int].sw as int, x, y) == cell_at(
                nodes,
                h,
                x + 2 * pow2((nodes[h].level - 2) as nat),
                y + 3 * pow2((nodes[h].level - 2) as nat),
            ),
{
    assert(node_ok(nodes, h));
    let d = pow2((nodes[h].level - 2) as nat) as int;
    vstd::arithmetic::power2::lemma_pow2_unfold((nodes[h].level - 1) as nat);
    lemma_child_cells(nodes, h);
    lemma_child_cells(nodes, nodes[h].nw as int);
    lemma_child_cells(nodes, nodes[h].ne as int);
    lemma_child_cells(nodes, nodes[h].sw as int);
    lemma_child_cells(nodes, nodes[h].se as int);
}

/// A node assembled from four grandchildren reads the grandparent at
/// its own offset.
pub proof fn lemma_assembled_square(
    pre: Seq<QuadTree>,
    post: Seq<QuadTree>,
    h: int,
    p: int,
    ox: int,
    oy: int,
)
    requires
        arena_ok(pre),
        arena_ok(post),
        grows_to(pre, post),
        0 <= h < pre.len(),
        2 <= pre[h].level,
        0 <= p < post.len(),
        post[p].level + 1 == pre[h].level,
        (post[p].nw as int) < pre.len(),
        (post[p].ne as int) < pre.len(),
        (post[p].sw as int) < pre.len(),
        (post[p].se as int) < pre.len(),
        forall|x: int, y: int|
            0 <= x < pow2((pre[h].level - 2) as nat) && 0 <= y < pow2((pre[h].level - 2) as nat)
                ==> #[trigger] cell_at(pre, post[p].nw as int, x, y) == cell_at(
                    pre,
                    h,
                    x + ox,
                    y + oy,
                ),
        forall|x: int, y: int|
            0 <= x < pow2((pre[h].level - 2) as nat) && 0 <= y < pow2((pre[h].level - 2) as nat)
                ==> #[trigger] cell_at(pre, post[p].ne as int, x, y) == cell_at(
                    pre,
                    h,
                    x + ox + pow2((pre[h].level - 2) as nat),
                    y + oy,
                ),
        forall|x: int, y: int|
            0 <= x < pow2((pre[h].level - 2) as nat) && 0 <= y < pow2((pre[h].level - 2) as nat)
                ==> #[trigger] cell_at(pre, post[p].sw as int, x, y) == cell_at(
                    pre,
                    h,
                    x + ox,
                    y + oy + pow2((pre[h].level - 2) as nat),
                ),
        forall|x: int, y: int|
            0 <= x < pow2((pre[h].level - 2) as nat) && 0 <= y < pow2((pre[h].level - 2) as nat)
                ==> #[trigger] cell_at(pre, post[p].se as int, x, y) == cell_at(
                    pre,
                    h,
                    x + ox + pow2((pre[h].level - 2) as nat),
                    y + oy + pow2((pre[h].level - 2) as nat),
                ),
    ensures
        reads_at(pre, h, post, p, ox, oy),
{
    let d = pow2((pre[h].level - 2) as nat) as int;
    assert(node_ok(post, p));
    let g = |x: int, y: int| cell_at(pre, h, x, y);
    assert forall|x: int, y: int|
        0 <= x < d && 0 <= y < d implies #[trigger] cell_at(post, post[p].nw as int, x, y) == g(
        x + ox,
        y + oy,
    ) by {
        lemma_cell_at_grow(pre, post, post[p].nw as int, x, y);
    }
    assert forall|x: int, y: int|
        0 <= x < d && 0 <= y < d implies #[trigger] cell_at(post, post[p].ne as int, x, y) == g(
        x + ox + d,
        y + oy,
    ) by {
        lemma_cell_at_grow(pre, post, post[p].ne as int, x, y);
    }
    assert forall|x: int, y: int|
        0 <= x < d && 0 <= y < d implies #[trigger] cell_at(post, post[p].sw as int, x, y) == g(
        x + ox,
        y + oy + d,
    ) by {
        lemma_cell_at_grow(pre, post, post[p].sw as int, x, y);
    }
    assert forall|x: int, y: int|
        0 <= x < d && 0 <= y < d implies #[trigger] cell_at(post, post[p].se as int, x, y) == g(
        x + ox + d,
        y + oy + d,
    ) by {
        lemma_cell_at_grow(pre, post, post[p].se as int, x, y);
    }
    lemma_quad_assemble(post, p, g, ox, oy);
}

/// Combining [`lemma_rebase`] with composition of generations: if the
/// advanced node itself read `j` generations past a base
/// configuration at a fixed offset, its advanced center reads
/// `j + 2^(level-2)` generations past the base.
pub proof fn lemma_rebase_add(
    pre: Seq<QuadTree>,
    t: int,
    post: Seq<QuadTree>,
    r: int,
    base: spec_fn(int, int) -> bool,
    j: nat,
    ox: int,
    oy: int,
)
    requires
        0 <= t < pre.len(),
        pre[t].level >= 2,
        advanced_ok(pre, t, post, r),
        forall|x: int, y: int|
            0 <= x < pow2(pre[t].level as nat) && 0 <= y < pow2(pre[t].level as nat)
                ==> #[trigger] cell_at(pre, t, x, y) == crate::rule::life_after(base, j)(
                    x + ox,
                    y + oy,
                ),
    ensures
        forall|a: int, b: int|
            0 <= a < 2 * pow2((pre[t].level - 2) as nat) && 0 <= b < 2 * pow2(
                (pre[t].level - 2) as nat,
            ) ==> #[trigger] cell_at(post, r, a, b) == crate::rule::life_after(
                base,
                j + pow2((pre[t].level - 2) as nat),
            )(a + pow2((pre[t].level - 2) as nat) + ox, b + pow2((pre[t].level - 2) as nat) + oy),
{
    let qn = pow2((pre[t].level - 2) as nat);
    let q = qn as int;
    lemma_rebase(pre, t, post, r, crate::rule::life_after(base, j), ox, oy);
    assert forall|a: int, b: int|
        0 <= a < 2 * q && 0 <= b < 2 * q implies #[trigger] cell_at(post, r, a, b)
        == crate::rule::life_after(base, j + qn)(a + q + ox, b + q + oy) by {
        assert(cell_at(post, r, a, b) == crate::rule::life_after(
            crate::rule::life_after(base, j),
            qn,
        )(a + q + ox, b + q + oy));
        crate::rule::lemma_life_after_add(base, j, qn, a + q + ox, b + q + oy);
    }
}

/// The whole universe as a configuration of the plane, in absolute
/// coordinates centered on the origin.
pub open spec fn universe_config(u: HashLifeUniverse) -> spec_fn(int, int) -> bool {
    |x: int, y: int| u.cell(x, y)
}

/// Interning is deterministic: a well-formed arena holds at most one
/// node per (level, children / alive) key, so two handles that carry
/// the same key are one and the same, wherever and whenever each was
/// obtained.
pub proof fn lemma_interning_unique(nodes: Seq<QuadTree>, h1: int, h2: int)
    requires
        arena_ok(nodes),
        0 <= h1 < nodes.len(),
        0 <= h2 < nodes.len(),
        same_key(nodes[h1], nodes[h2]),
    ensures
        h1 == h2,
{
}

/// In a well-formed arena every node's population is the sum of its
/// children's populations, and a leaf's population is 1 or 0 as the
/// cell is alive or dead, whatever construction path produced it.
pub proof fn lemma_population_sum(nodes: Seq<QuadTree>, h: int)
    requires
        arena_ok(nodes),
        0 <= h < nodes.len(),
    ensures
        nodes[h].level == 0 ==> nodes[h].population == (if nodes[h].alive {
            1u64
        } else {
            0u64
        }),
        nodes[h].level > 0 ==> nodes[h].population as int == nodes[nodes[h].nw as int].population
            as int + nodes[nodes[h].ne as int].population as int
            + nodes[nodes[h].sw as int].population as int
            + nodes[nodes[h].se as int].population as int,
{
    assert(node_ok(nodes, h));
}

/// Hash-consing shares structure: two same-level nodes whose regions
/// hold cell for cell the same pattern are the same handle, however
/// far apart in space or time the two regions were built.
pub proof fn lemma_same_cells_same_handle(nodes: Seq<QuadTree>, h1: int, h2: int)
    requires
        arena_ok(nodes),
        0 <= h1 < nodes.len(),
        0 <= h2 < nodes.len(),
        nodes[h1].level == nodes[h2].level,
        forall|x: int, y: int|
            0 <= x < pow2(nodes[h1].level as nat) && 0 <= y < pow2(nodes[h1].level as nat)
                ==> cell_at(nodes, h1, x, y) == cell_at(nodes, h2, x, y),
    ensures
        h1 == h2,
    decreases nodes[h1].level,
{
    let n1 = nodes[h1];
    let n2 = nodes[h2];
    assert(node_ok(nodes, h1));
    assert(node_ok(nodes, h2));
    lemma2_to64();
    if n1.level == 0 {
        assert(cell_at(nodes, h1, 0, 0) == n1.alive);
        assert(cell_at(nodes, h2, 0, 0) == n2.alive);
        assert(same_key(n1, n2));
    } else {
        let hf = pow2((n1.level - 1) as nat) as int;
        vstd::arithmetic::power2::lemma_pow2_unfold(n1.level as nat);
        lemma_pow2_pos((n1.level - 1) as nat);
        assert forall|x: int, y: int|
            0 <= x < hf && 0 <= y < hf implies cell_at(nodes, n1.nw as int, x, y) == cell_at(
            nodes,
            n2.nw as int,
            x,
            y,
        ) by {
            assert(cell_at(nodes, h1, x, y) == cell_at(nodes, n1.nw as int, x, y));
            assert(cell_at(nodes, h2, x, y) == cell_at(nodes, n2.nw as int, x, y));
        }
        lemma_same_cells_same_handle(nodes, n1.nw as int, n2.nw as int);
        assert forall|x: int, y: int|
            0 <= x < hf && 0 <= y < hf implies cell_at(nodes, n1.ne as int, x, y) == cell_at(
            nodes,
            n2.ne as int,
            x,
            y,
        ) by {
            assert(cell_at(nodes, h1, x + hf, y) == cell_at(nodes, n1.ne as int, x, y));
            assert(cell_at(nodes, h2, x + hf, y) == cell_at(nodes, n2.ne as int, x, y));
        }
        lemma_same_cells_same_handle(nodes, n1.ne as int, n2.ne as int);
        assert forall|x: int, y: int|
            0 <= x < hf && 0 <= y < hf implies cell_at(nodes, n1.sw as int, x, y) == cell_at(
            nodes,
            n2.sw as int,
            x,
            y,
        ) by {
            assert(cell_at(nodes, h1, x, y + hf) == cell_at(nodes, n1.sw as int, x, y));
            assert(cell_at(nodes, h2, x, y + hf) == cell_at(nodes, n2.sw as int, x, y));
        }
        lemma_same_cells_same_handle(nodes, n1.sw as int, n2.sw as int);
        assert forall|x: int, y: int|
            0 <= x < hf && 0 <= y < hf implies cell_at(nodes, n1.se as int, x, y) == cell_at(
            nodes,
            n2.se as int,
            x,
            y,
        ) by {
            assert(cell_at(nodes, h1, x + hf, y + hf) == cell_at(nodes, n1.se as int, x, y));
            assert(cell_at(nodes, h2, x + hf, y + hf) == cell_at(nodes, n2.se as int, x, y));
        }
        lemma_same_cells_same_handle(nodes, n1.se as int, n2.se as int);
        assert(same_key(n1, n2));
    }
    lemma_interning_unique(nodes, h1, h2);
}

/// Advancing is a function of the node alone: any two results that
/// are correct for one node in one canonical arena are the same
/// handle.  This is what makes the write-once memo table sound: a
/// repeated advance of the same node returns the identical instance.
pub proof fn lemma_advance_deterministic(nodes: Seq<QuadTree>, h: int, r1: int, r2: int)
    requires
        arena_ok(nodes),
        0 <= h < nodes.len(),
        2 <= nodes[h].level,
        0 <= r1 < nodes.len(),
        0 <= r2 < nodes.len(),
        nodes[r1].level + 1 == nodes[h].level,
        nodes[r2].level + 1 == nodes[h].level,
        advanced_ok(nodes, h, nodes, r1),
        advanced_ok(nodes, h, nodes, r2),
    ensures
        r1 == r2,
{
    let q = pow2((nodes[h].level - 2) as nat) as int;
    vstd::arithmetic::power2::lemma_pow2_unfold((nodes[h].level - 1) as nat);
    assert forall|x: int, y: int|
        0 <= x < pow2(nodes[r1].level as nat) && 0 <= y < pow2(nodes[r1].level as nat)
            implies cell_at(nodes, r1, x, y) == cell_at(nodes, r2, x, y) by {
        assert(cell_at(nodes, r1, x, y) == crate::rule::life_after(
            node_config(nodes, h),
            pow2((nodes[h].level - 2) as nat),
        )(x + q, y + q));
        assert(cell_at(nodes, r2, x, y) == crate::rule::life_after(
            node_config(nodes, h),
            pow2((nodes[h].level - 2) as nat),
        )(x + q, y + q));
    }
    lemma_same_cells_same_handle(nodes, r1, r2);
}

/// `2^e` as a `u64`.
fn pow2_u64(e: u32) -> (r: u64)
    requires
        e < 64,
    ensures
        r as nat == pow2(e as nat),
{
    proof {
        lemma_u64_pow2_no_overflow(e as nat);
        lemma_u64_shl_is_mul(1u64, e as u64);
    }
    1u64 << (e as u64)
}

impl QuadTree {
    /// Build the record of a single dead or live cell.
    pub fn new_cell(alive: bool) -> (r: QuadTree)
        ensures
            r == leaf_record(alive),
    {
        QuadTree {
            level: 0,
            nw: 0,
            ne: 0,
            sw: 0,
            se: 0,
            alive,
            population: if alive {
                1
            } else {
                0
            },
        }
    }

    /// Build an interior record from four child handles and the
    /// combined population of the children.  The record is inert until
    /// a canonical table adopts it; `HashLifeUniverse` only ever stores
    /// records whose population really is the children's sum.
    pub fn new_node(level: u32, nw: usize, ne: usize, sw: usize, se: usize, population: u64) -> (r:
        QuadTree)
        ensures
            r == (QuadTree { level, nw, ne, sw, se, alive: false, population }),
    {
        QuadTree { level, nw, ne, sw, se, alive: false, population }
    }

    /// Side length of the region, `2^level`.
    pub fn size(&self) -> (r: u32)
        requires
            self.level <= MAX_LEVEL,
        ensures
            r as nat == pow2(self.level as nat),
    {
        proof {
            if self.level < 31 {
                lemma_pow2_strictly_increases(self.level as nat, 31);
            }
            lemma2_to64();
            vstd::bits::lemma_u32_shl_is_mul(1u32, self.level);
        }
        1u32 << self.level
    }

    /// Number of live cells in the region, fixed at construction.
    pub fn population(&self) -> (r: u64)
        ensures
            r == self.population,
    {
        self.population
    }
}

/// The arena only ever grows, and existing entries never change.
pub open spec fn grows_to(before: Seq<QuadTree>, after: Seq<QuadTree>) -> bool {
    &&& before.len() <= after.len()
    &&& forall|i: int| 0 <= i < before.len() ==> before[i] == after[i]
}

/// Growth composes.
pub proof fn lemma_grows_trans(a: Seq<QuadTree>, b: Seq<QuadTree>, c: Seq<QuadTree>)
    requires
        grows_to(a, b),
        grows_to(b, c),
    ensures
        grows_to(a, c),
{
    assert forall|i: int| 0 <= i < a.len() implies a[i] == c[i] by {
        assert(a[i] == b[i]);
    }
}

/// An infinite two-state universe: one root node in a canonical arena,
/// plus the generation counter and the per-node memo table of the
/// evolution engine.
pub struct HashLifeUniverse {
    nodes: Vec<QuadTree>,
    memo: Vec<Option<usize>>,
    root: usize,
    generation: u64,
}

/// What a memo entry may hold: the cached result of advancing node `i`,
/// one level below `i`, and empty whenever `i` is empty.
pub open spec fn memo_entry_ok(nodes: Seq<QuadTree>, i: int, e: Option<usize>) -> bool {
    match e {
        Some(r) => {
            &&& (r as int) < nodes.len()
            &&& nodes[i].level >= 2
            &&& nodes[r as int].level + 1 == nodes[i].level
            &&& nodes[i].population == 0 ==> nodes[r as int].population == 0
            &&& advanced_ok(nodes, i, nodes, r as int)
        },
        None => true,
    }
}

/// The memo table mirrors the arena index for index.
pub open spec fn memo_ok(nodes: Seq<QuadTree>, memo: Seq<Option<usize>>) -> bool {
    &&& memo.len() == nodes.len()
    &&& forall|i: int| 0 <= i < memo.len() ==> memo_entry_ok(nodes, i, #[trigger] memo[i])
}

impl HashLifeUniverse {
    /// The canonical node table, as a sequence of records.
    pub closed spec fn arena(&self) -> Seq<QuadTree> {
        self.nodes@
    }

    /// Handle of the current root node.
    pub closed spec fn root_spec(&self) -> int {
        self.root as int
    }

    /// Number of generations advanced so far.
    pub closed spec fn generation_spec(&self) -> u64 {
        self.generation
    }

    /// The memo table of the evolution engine.
    pub closed spec fn memo_view(&self) -> Seq<Option<usize>> {
        self.memo@
    }

    /// Level of the root node.
    pub open spec fn level_spec(&self) -> u32 {
        self.arena()[self.root_spec()].level
    }

    /// Number of live cells in the whole universe.
    pub open spec fn population_spec(&self) -> u64 {
        self.arena()[self.root_spec()].population
    }

    /// The universe is well formed: canonical arena, consistent memo
    /// table, and a root of level at least 2.
    pub open spec fn wf(&self) -> bool {
        &&& arena_ok(self.arena())
        &&& memo_ok(self.arena(), self.memo_view())
        &&& 0 <= self.root_spec() < self.arena().len()
        &&& 2 <= self.level_spec() <= MAX_LEVEL
    }

    /// Half the side length of the materialized square.  The universe
    /// covers coordinates `[-half, half)` in both axes.
    pub open spec fn half_spec(&self) -> int {
        pow2((self.level_spec() - 1) as nat) as int
    }

    /// The state of the cell at absolute coordinates `(x, y)`; any
    /// coordinate outside the materialized square reads as dead.
    pub open spec fn cell(&self, x: int, y: int) -> bool {
        let half = self.half_spec();
        &&& -half <= x < half
        &&& -half <= y < half
        &&& cell_at(self.arena(), self.root_spec(), x + half, y + half)
    }

    /// The root is padded when each quadrant's population sits
    /// entirely in its innermost sub-sub-quadrant, i.e. all live cells
    /// lie in the central quarter of the universe.
    pub open spec fn padded_spec(nodes: Seq<QuadTree>, rt: int) -> bool {
        let n = nodes[rt];
        let nwn = nodes[n.nw as int];
        let nen = nodes[n.ne as int];
        let swn = nodes[n.sw as int];
        let sen = nodes[n.se as int];
        &&& nwn.population == nodes[nodes[nwn.se as int].se as int].population
        &&& nen.population == nodes[nodes[nen.sw as int].sw as int].population
        &&& swn.population == nodes[nodes[swn.ne as int].ne as int].population
        &&& sen.population == nodes[nodes[sen.nw as int].nw as int].population
    }

    /// A fresh, empty universe of minimal extent (a level-2 root, a
    /// 4 by 4 square), at generation zero.
    pub fn new() -> (u: HashLifeUniverse)
        ensures
            u.wf(),
            u.generation_spec() == 0,
            u.level_spec() == 2,
            u.population_spec() == 0,
            forall|x: int, y: int| !u.cell(x, y),
    {
        let mut nodes: Vec<QuadTree> = Vec::new();
        nodes.push(QuadTree::new_cell(false));
        nodes.push(QuadTree::new_cell(true));
        nodes.push(QuadTree::new_node(1, 0, 0, 0, 0, 0));
        nodes.push(QuadTree::new_node(2, 2, 2, 2, 2, 0));
        let mut memo: Vec<Option<usize>> = Vec::new();
        memo.push(None);
        memo.push(None);
        memo.push(None);
        memo.push(None);
        let u = HashLifeUniverse { nodes, memo, root: 3, generation: 0 };
        proof {
            lemma2_to64();
            assert forall|x: int, y: int| !u.cell(x, y) by {
                if u.cell(x, y) {
                    lemma_empty_node_cells(u.arena(), u.root_spec(), x + u.half_spec(), y
                        + u.half_spec());
                }
            }
        }
        u
    }

    /// Interning: return the canonical handle for an interior node with
    /// the given level and children, creating it on first occurrence.
    /// Calling this twice with the same arguments returns the same
    /// handle, since the arena never holds two entries with one key.
    #[verifier::loop_isolation(false)]
    fn get_node(&mut self, level: u32, nw: usize, ne: usize, sw: usize, se: usize) -> (h: usize)
        requires
            old(self).wf(),
            1 <= level <= MAX_LEVEL,
            (nw as int) < old(self).arena().len(),
            (ne as int) < old(self).arena().len(),
            (sw as int) < old(self).arena().len(),
            (se as int) < old(self).arena().len(),
            old(self).arena()[nw as int].level + 1 == level,
            old(self).arena()[ne as int].level + 1 == level,
            old(self).arena()[sw as int].level + 1 == level,
            old(self).arena()[se as int].level + 1 == level,
        ensures
            final(self).wf(),
            grows_to(old(self).arena(), final(self).arena()),
            final(self).root_spec() == old(self).root_spec(),
            final(self).generation_spec() == old(self).generation_spec(),
            (h as int) < final(self).arena().len(),
            final(self).arena()[h as int].level == level,
            final(self).arena()[h as int].nw == nw,
            final(self).arena()[h as int].ne == ne,
            final(self).arena()[h as int].sw == sw,
            final(self).arena()[h as int].se == se,
            final(self).arena()[h as int].alive == false,
            final(self).arena().len() <= old(self).arena().len() + 1,
            final(self).arena()[h as int].population as int == old(self).arena()[nw as int].population
                as int + old(self).arena()[ne as int].population as int
                + old(self).arena()[sw as int].population as int
                + old(self).arena()[se as int].population as int,
    {
        let ghost key = QuadTree { level, nw, ne, sw, se, alive: false, population: 0 };
        let n = self.nodes.len();
        let mut i: usize = 0;
        while i < n
            invariant
                i <= n,
                forall|j: int| 0 <= j < i ==> !same_key(self.nodes@[j], key),
            decreases n - i,
        {
            let nd = self.nodes[i];
            if nd.level == level && nd.nw == nw && nd.ne == ne && nd.sw == sw && nd.se == se {
                proof {
                    assert(node_ok(self.arena(), i as int));
                }
                return i;
            }
            proof {
                assert(!same_key(self.nodes@[i as int], key));
            }
            i += 1;
        }
        proof {
            let pre = self.arena();
            assert(node_ok(pre, nw as int));
            assert(node_ok(pre, ne as int));
            assert(node_ok(pre, sw as int));
            assert(node_ok(pre, se as int));
            let cl = (2 * (level - 1)) as nat;
            lemma_pow2_adds(cl, 2);
            lemma2_to64();
            lemma_u64_pow2_no_overflow((2 * level) as nat);
            assert(pre[nw as int].population as nat <= pow2(cl));
            assert(pre[ne as int].population as nat <= pow2(cl));
            assert(pre[sw as int].population as nat <= pow2(cl));
            assert(pre[se as int].population as nat <= pow2(cl));
            assert(pow2((2 * level) as nat) == 4 * pow2(cl));
        }
        let pop = self.nodes[nw].population + self.nodes[ne].population
            + self.nodes[sw].population + self.nodes[se].population;
        let h = self.nodes.len();
        let rec = QuadTree::new_node(level, nw, ne, sw, se, pop);
        self.nodes.push(rec);
        self.memo.push(None);
        proof {
            let post = self.arena();
            let pre = old(self).arena();
            assert forall|k: int| 0 <= k < post.len() implies #[trigger] node_ok(post, k) by {
                if k < h {
                    assert(node_ok(pre, k));
                    assert(post[k] == pre[k]);
                }
            }
            assert(canonical(post)) by {
                assert forall|a: int, b: int|
                    0 <= a < post.len() && 0 <= b < post.len() && a != b implies !same_key(
                    post[a],
                    post[b],
                ) by {
                    if a < h && b < h {
                        assert(!same_key(pre[a], pre[b]));
                    } else if a == h && b < h {
                        assert(!same_key(post[b], key));
                    } else if b == h && a < h {
                        assert(!same_key(post[a], key));
                    }
                }
            }
            assert forall|k: int| 0 <= k < self.memo@.len() implies memo_entry_ok(
                post,
                k,
                #[trigger] self.memo@[k],
            ) by {
                if k < h {
                    assert(memo_entry_ok(pre, k, old(self).memo@[k]));
                    assert(self.memo@[k] == old(self).memo@[k]);
                    match old(self).memo@[k] {
                        Some(res) => {
                            lemma_advanced_ok_frame(pre, post, pre, post, k, res as int);
                        },
                        None => {},
                    }
                }
            }
        }
        h
    }

    /// The canonical handle of the empty node of the given level
    /// (handle 0 at level 0).
    fn empty_quad(&mut self, level: u32) -> (h: usize)
        requires
            old(self).wf(),
            level <= MAX_LEVEL,
        ensures
            final(self).wf(),
            grows_to(old(self).arena(), final(self).arena()),
            final(self).root_spec() == old(self).root_spec(),
            final(self).generation_spec() == old(self).generation_spec(),
            (h as int) < final(self).arena().len(),
            final(self).arena()[h as int].level == level,
            final(self).arena()[h as int].population == 0,
            final(self).arena().len() <= old(self).arena().len() + level,
        decreases level,
    {
        if level == 0 {
            0
        } else {
            let sub = self.empty_quad(level - 1);
            self.get_node(level, sub, sub, sub, sub)
        }
    }

    /// Read the cell at local coordinates `(x, y)` of node `h`, for
    /// coordinates inside the node's region.
    fn get_cell_recursive(&self, h: usize, x: u64, y: u64) -> (r: bool)
        requires
            arena_ok(self.arena()),
            (h as int) < self.arena().len(),
        ensures
            r == cell_at(self.arena(), h as int, x as int, y as int),
        decreases self.arena()[h as int].level,
    {
        let n = self.nodes[h];
        if n.level == 0 {
            n.alive
        } else {
            proof {
                assert(node_ok(self.arena(), h as int));
            }
            let half = pow2_u64(n.level - 1);
            if x < half {
                if y < half {
                    self.get_cell_recursive(n.nw, x, y)
                } else {
                    self.get_cell_recursive(n.sw, x, y - half)
                }
            } else {
                if y < half {
                    self.get_cell_recursive(n.ne, x - half, y)
                } else {
                    self.get_cell_recursive(n.se, x - half, y - half)
                }
            }
        }
    }

    /// The cell at absolute coordinates `(x, y)`.  Coordinates outside
    /// the materialized square lie in the as-yet-unmaterialized void,
    /// which is always dead.
    pub fn get_cell(&self, x: i32, y: i32) -> (r: bool)
        requires
            self.wf(),
        ensures
            r == self.cell(x as int, y as int),
    {
        let level = self.root_level();
        let half_u = pow2_u64(level - 1);
        proof {
            lemma_pow2_strictly_increases((level - 1) as nat, 62);
            lemma2_to64();
            vstd::arithmetic::power2::lemma2_to64_rest();
        }
        let half = half_u as i64;
        let xi = x as i64;
        let yi = y as i64;
        if xi < -half || xi >= half || yi < -half || yi >= half {
            return false;
        }
        self.get_cell_recursive(self.root, (xi + half) as u64, (yi + half) as u64)
    }

    /// Whether `(x, y)` lies outside the materialized square.
    fn out_of_bounds(&self, x: i32, y: i32) -> (r: bool)
        requires
            self.wf(),
        ensures
            r == !(-self.half_spec() <= (x as int) < self.half_spec() && -self.half_spec() <= (
            y as int) < self.half_spec()),
    {
        let level = self.root_level();
        let half = pow2_u64(level - 1) as i64;
        proof {
            lemma_pow2_strictly_increases((level - 1) as nat, 62);
            lemma2_to64();
            vstd::arithmetic::power2::lemma2_to64_rest();
        }
        (x as i64) < -half || (x as i64) >= half || (y as i64) < -half || (y as i64) >= half
    }

    /// Rebuild the spine from node `h` down to the cell at local
    /// coordinates `(x, y)`, setting that cell to `alive`.  At every
    /// level exactly one child is replaced and the three siblings are
    /// reused unchanged, so the returned tree shares all untouched
    /// quadrants with the old one.
    fn set_cell_recursive(&mut self, h: usize, x: u64, y: u64, alive: bool) -> (r: usize)
        requires
            old(self).wf(),
            (h as int) < old(self).arena().len(),
            (x as nat) < pow2(old(self).arena()[h as int].level as nat),
            (y as nat) < pow2(old(self).arena()[h as int].level as nat),
        ensures
            final(self).wf(),
            grows_to(old(self).arena(), final(self).arena()),
            final(self).root_spec() == old(self).root_spec(),
            final(self).generation_spec() == old(self).generation_spec(),
            (r as int) < final(self).arena().len(),
            final(self).arena()[r as int].level == old(self).arena()[h as int].level,
            final(self).arena().len() <= old(self).arena().len() + old(self).arena()[h as int].level
                + 1,
            forall|a: int, b: int|
                0 <= a < pow2(old(self).arena()[h as int].level as nat) && 0 <= b < pow2(
                    old(self).arena()[h as int].level as nat,
                ) ==> cell_at(final(self).arena(), r as int, a, b) == (if a == x && b == y {
                    alive
                } else {
                    cell_at(old(self).arena(), h as int, a, b)
                }),
        decreases old(self).arena()[h as int].level,
    {
        let n = self.nodes[h];
        if n.level == 0 {
            proof {
                lemma2_to64();
            }
            if alive {
                return 1;
            } else {
                return 0;
            }
        }
        proof {
            assert(node_ok(self.arena(), h as int));
            vstd::arithmetic::power2::lemma_pow2_unfold(n.level as nat);
        }
        let half = pow2_u64(n.level - 1);
        let ghost mut mid: Seq<QuadTree> = Seq::empty();
        let c: usize;
        let r: usize;
        if x < half {
            if y < half {
                c = self.set_cell_recursive(n.nw, x, y, alive);
                proof {
                    mid = self.arena();
                }
                r = self.get_node(n.level, c, n.ne, n.sw, n.se);
            } else {
                c = self.set_cell_recursive(n.sw, x, y - half, alive);
                proof {
                    mid = self.arena();
                }
                r = self.get_node(n.level, n.nw, n.ne, c, n.se);
            }
        } else {
            if y < half {
                c = self.set_cell_recursive(n.ne, x - half, y, alive);
                proof {
                    mid = self.arena();
                }
                r = self.get_node(n.level, n.nw, c, n.sw, n.se);
            } else {
                c = self.set_cell_recursive(n.se, x - half, y - half, alive);
                proof {
                    mid = self.arena();
                }
                r = self.get_node(n.level, n.nw, n.ne, n.sw, c);
            }
        }
        proof {
            let pre = old(self).arena();
            let post = self.arena();
            let hl = pre[h as int].level;
            let hf = pow2((hl - 1) as nat) as int;
            assert(grows_to(pre, post));
            assert(node_ok(post, r as int));
            assert forall|a: int, b: int|
                0 <= a < pow2(hl as nat) && 0 <= b < pow2(hl as nat) implies cell_at(
                post,
                r as int,
                a,
                b,
            ) == (if a == x && b == y {
                alive
            } else {
                cell_at(pre, h as int, a, b)
            }) by {
                if a < hf {
                    if b < hf {
                        if x < half && y < half {
                            lemma_cell_at_grow(mid, post, c as int, a, b);
                        } else {
                            lemma_cell_at_grow(pre, post, pre[h as int].nw as int, a, b);
                        }
                    } else {
                        if x < half && y >= half {
                            lemma_cell_at_grow(mid, post, c as int, a, b - hf);
                        } else {
                            lemma_cell_at_grow(pre, post, pre[h as int].sw as int, a, b - hf);
                        }
                    }
                } else {
                    if b < hf {
                        if x >= half && y < half {
                            lemma_cell_at_grow(mid, post, c as int, a - hf, b);
                        } else {
                            lemma_cell_at_grow(pre, post, pre[h as int].ne as int, a - hf, b);
                        }
                    } else {
                        if x >= half && y >= half {
                            lemma_cell_at_grow(mid, post, c as int, a - hf, b - hf);
                        } else {
                            lemma_cell_at_grow(pre, post, pre[h as int].se as int, a - hf, b - hf);
                        }
                    }
                }
            }
        }
        r
    }

    /// Set the cell at absolute coordinates `(x, y)` to `alive`,
    /// growing the universe first exactly until the target fits: the
    /// final level is the least one containing the target.  Only the
    /// spine to the target is rebuilt through the canonical table, a
    /// handful of nodes per level; every other cell keeps its state
    /// and every untouched quadrant stays shared.
    #[verifier::loop_isolation(false)]
    #[verifier::rlimit(100)]
    #[verifier::spinoff_prover]
    pub fn set_cell(&mut self, x: i32, y: i32, alive: bool)
        requires
            old(self).wf(),
            -0x4000_0000 <= x < 0x4000_0000,
            -0x4000_0000 <= y < 0x4000_0000,
        ensures
            final(self).wf(),
            final(self).generation_spec() == old(self).generation_spec(),
            forall|a: int, b: int|
                final(self).cell(a, b) == (if a == x as int && b == y as int {
                    alive
                } else {
                    old(self).cell(a, b)
                }),
            final(self).level_spec() >= old(self).level_spec(),
            (-old(self).half_spec() <= (x as int) < old(self).half_spec() && -old(self).half_spec() <= (y as int) < old(self).half_spec()) ==> final(self).level_spec()
                == old(self).level_spec() && final(self).arena().len() <= old(self).arena().len()
                + old(self).level_spec() + 1,
            final(self).level_spec() > old(self).level_spec() ==> !(-pow2(
                (final(self).level_spec() - 2) as nat,
            ) <= (x as int) < pow2((final(self).level_spec() - 2) as nat) && -pow2(
                (final(self).level_spec() - 2) as nat,
            ) <= (y as int) < pow2((final(self).level_spec() - 2) as nat)),
            final(self).arena().len() <= old(self).arena().len() + (final(self).level_spec()
                - old(self).level_spec()) * (final(self).level_spec() + 4) + final(self).level_spec() + 1,
    {
        while self.out_of_bounds(x, y)
            invariant
                self.wf(),
                self.generation_spec() == old(self).generation_spec(),
                forall|a: int, b: int| self.cell(a, b) == old(self).cell(a, b),
                self.level_spec() >= old(self).level_spec(),
                self.level_spec() > old(self).level_spec() ==> !(-pow2(
                    (self.level_spec() - 2) as nat,
                ) <= (x as int) < pow2((self.level_spec() - 2) as nat) && -pow2(
                    (self.level_spec() - 2) as nat,
                ) <= (y as int) < pow2((self.level_spec() - 2) as nat)),
                self.level_spec() > old(self).level_spec() ==> !(-old(self).half_spec() <= (
                x as int) < old(self).half_spec() && -old(self).half_spec() <= (y as int) < old(self).half_spec()),
                self.arena().len() <= old(self).arena().len() + (self.level_spec() - old(self).level_spec()) * (self.level_spec() + 4),
            decreases MAX_LEVEL - self.level_spec(),
        {
            proof {
                lemma2_to64();
            }
            let ghost lpre = self.level_spec() as int;
            let ghost l0 = old(self).level_spec() as int;
            let ghost len_pre = self.arena().len() as int;
            self.expand();
            proof {
                assert((lpre - l0) * (lpre + 4) + (lpre + 4) == (lpre + 1 - l0) * (lpre + 4))
                    by (nonlinear_arith);
                assert((lpre + 1 - l0) * (lpre + 4) <= (lpre + 1 - l0) * (lpre + 1 + 4))
                    by (nonlinear_arith)
                    requires
                        lpre + 1 - l0 >= 1,
                ;
            }
        }
        proof {
            let lc = self.level_spec() as int;
            let l0 = old(self).level_spec() as int;
            assert((lc - l0) * (lc + 4) >= 0) by (nonlinear_arith)
                requires
                    lc >= l0 && lc >= 0,
            ;
            if lc == l0 {
                assert((lc - l0) * (lc + 4) == 0) by (nonlinear_arith)
                    requires
                        lc == l0,
                ;
            }
        }
        let level = self.root_level();
        proof {
            lemma_pow2_strictly_increases((level - 1) as nat, 62);
            lemma2_to64();
            vstd::arithmetic::power2::lemma2_to64_rest();
            vstd::arithmetic::power2::lemma_pow2_unfold(level as nat);
        }
        let half = pow2_u64(level - 1) as i64;
        let ghost mid = *self;
        let lx = (x as i64 + half) as u64;
        let ly = (y as i64 + half) as u64;
        let r = self.set_cell_recursive(self.root, lx, ly, alive);
        self.root = r;
        proof {
            let hf = mid.half_spec();
            assert forall|a: int, b: int|
                self.cell(a, b) == (if a == x as int && b == y as int {
                    alive
                } else {
                    old(self).cell(a, b)
                }) by {
                if -hf <= a < hf && -hf <= b < hf {
                    assert(self.cell(a, b) == cell_at(self.arena(), r as int, a + hf, b + hf));
                } else {
                    assert(!mid.cell(a, b));
                    assert(!self.cell(a, b));
                }
            }
        }
    }

    /// Double the materialized region: build a root one level higher
    /// whose children each combine one old quadrant with three empty
    /// quadrants, so the old content stays centered on the origin.
    /// No cell changes state, and anything newly materialized is dead.
    pub fn expand(&mut self)
        requires
            old(self).wf(),
            old(self).level_spec() < MAX_LEVEL,
        ensures
            final(self).wf(),
            grows_to(old(self).arena(), final(self).arena()),
            final(self).level_spec() == old(self).level_spec() + 1,
            final(self).generation_spec() == old(self).generation_spec(),
            final(self).population_spec() == old(self).population_spec(),
            final(self).arena().len() <= old(self).arena().len() + old(self).level_spec() + 4,
            forall|a: int, b: int| final(self).cell(a, b) == old(self).cell(a, b),
    {
        let l = self.root_level();
        let n = self.nodes[self.root];
        proof {
            assert(node_ok(self.arena(), self.root_spec()));
        }
        let e = self.empty_quad(l - 1);
        let new_nw = self.get_node(l, e, e, e, n.nw);
        let new_ne = self.get_node(l, e, e, n.ne, e);
        let new_sw = self.get_node(l, e, n.sw, e, e);
        let new_se = self.get_node(l, n.se, e, e, e);
        let r = self.get_node(l + 1, new_nw, new_ne, new_sw, new_se);
        self.root = r;
        proof {
            let pre = old(self).arena();
            let post = self.arena();
            let rt = old(self).root_spec();
            let hf = pow2((l - 1) as nat) as int;
            let bg = pow2(l as nat) as int;
            vstd::arithmetic::power2::lemma_pow2_unfold(l as nat);
            assert(grows_to(pre, post));
            assert(node_ok(post, r as int));
            assert(node_ok(post, new_nw as int));
            assert(node_ok(post, new_ne as int));
            assert(node_ok(post, new_sw as int));
            assert(node_ok(post, new_se as int));
            assert(node_ok(pre, rt));
            assert(post[r as int].population == pre[rt].population);
            assert forall|x2: int, y2: int| !cell_at(post, e as int, x2, y2) by {
                lemma_empty_node_cells(post, e as int, x2, y2);
            }
            assert forall|a: int, b: int| self.cell(a, b) == old(self).cell(a, b) by {
                if -bg <= a < bg && -bg <= b < bg {
                    let aa = a + bg;
                    let bb = b + bg;
                    if -hf <= a < hf && -hf <= b < hf {
                        if a < 0 && b < 0 {
                            assert(cell_at(post, r as int, aa, bb) == cell_at(
                                post,
                                new_nw as int,
                                aa,
                                bb,
                            ));
                            assert(cell_at(post, new_nw as int, aa, bb) == cell_at(
                                post,
                                pre[rt].nw as int,
                                a + hf,
                                b + hf,
                            ));
                            lemma_cell_at_grow(pre, post, pre[rt].nw as int, a + hf, b + hf);
                            assert(cell_at(pre, rt, a + hf, b + hf) == cell_at(
                                pre,
                                pre[rt].nw as int,
                                a + hf,
                                b + hf,
                            ));
                        } else if a < 0 && b >= 0 {
                            assert(cell_at(post, r as int, aa, bb) == cell_at(
                                post,
                                new_sw as int,
                                aa,
                                bb - bg,
                            ));
                            assert(cell_at(post, new_sw as int, aa, bb - bg) == cell_at(
                                post,
                                pre[rt].sw as int,
                                a + hf,
                                b,
                            ));
                            lemma_cell_at_grow(pre, post, pre[rt].sw as int, a + hf, b);
                            assert(cell_at(pre, rt, a + hf, b + hf) == cell_at(
                                pre,
                                pre[rt].sw as int,
                                a + hf,
                                b,
                            ));
                        } else if a >= 0 && b < 0 {
                            assert(cell_at(post, r as int, aa, bb) == cell_at(
                                post,
                                new_ne as int,
                                aa - bg,
                                bb,
                            ));
                            assert(cell_at(post, new_ne as int, aa - bg, bb) == cell_at(
                                post,
                                pre[rt].ne as int,
                                a,
                                b + hf,
                            ));
                            lemma_cell_at_grow(pre, post, pre[rt].ne as int, a, b + hf);
                            assert(cell_at(pre, rt, a + hf, b + hf) == cell_at(
                                pre,
                                pre[rt].ne as int,
                                a,
                                b + hf,
                            ));
                        } else {
                            assert(cell_at(post, r as int, aa, bb) == cell_at(
                                post,
                                new_se as int,
                                aa - bg,
                                bb - bg,
                            ));
                            assert(cell_at(post, new_se as int, aa - bg, bb - bg) == cell_at(
                                post,
                                pre[rt].se as int,
                                a,
                                b,
                            ));
                            lemma_cell_at_grow(pre, post, pre[rt].se as int, a, b);
                            assert(cell_at(pre, rt, a + hf, b + hf) == cell_at(
                                pre,
                                pre[rt].se as int,
                                a,
                                b,
                            ));
                        }
                    } else {
                        if aa < bg && bb < bg {
                            assert(cell_at(post, r as int, aa, bb) == cell_at(
                                post,
                                new_nw as int,
                                aa,
                                bb,
                            ));
                            if aa < hf && bb < hf {
                                assert(cell_at(post, new_nw as int, aa, bb) == cell_at(
                                    post,
                                    e as int,
                                    aa,
                                    bb,
                                ));
                            } else if aa < hf {
                                assert(cell_at(post, new_nw as int, aa, bb) == cell_at(
                                    post,
                                    e as int,
                                    aa,
                                    bb - hf,
                                ));
                            } else if bb < hf {
                                assert(cell_at(post, new_nw as int, aa, bb) == cell_at(
                                    post,
                                    e as int,
                                    aa - hf,
                                    bb,
                                ));
                            } else {
                                assert(-hf <= a < hf && -hf <= b < hf);
                            }
                        } else if aa >= bg && bb < bg {
                            assert(cell_at(post, r as int, aa, bb) == cell_at(
                                post,
                                new_ne as int,
                                aa - bg,
                                bb,
                            ));
                            if aa - bg >= hf && bb < hf {
                                assert(cell_at(post, new_ne as int, aa - bg, bb) == cell_at(
                                    post,
                                    e as int,
                                    aa - bg - hf,
                                    bb,
                                ));
                            } else if aa - bg >= hf {
                                assert(cell_at(post, new_ne as int, aa - bg, bb) == cell_at(
                                    post,
                                    e as int,
                                    aa - bg - hf,
                                    bb - hf,
                                ));
                            } else if bb < hf {
                                assert(cell_at(post, new_ne as int, aa - bg, bb) == cell_at(
                                    post,
                                    e as int,
                                    aa - bg,
                                    bb,
                                ));
                            } else {
                                assert(-hf <= a < hf && -hf <= b < hf);
                            }
                        } else if aa < bg && bb >= bg {
                            assert(cell_at(post, r as int, aa, bb) == cell_at(
                                post,
                                new_sw as int,
                                aa,
                                bb - bg,
                            ));
                            if aa < hf && bb - bg >= hf {
                                assert(cell_at(post, new_sw as int, aa, bb - bg) == cell_at(
                                    post,
                                    e as int,
                                    aa,
                                    bb - bg - hf,
                                ));
                            } else if aa < hf {
                                assert(cell_at(post, new_sw as int, aa, bb - bg) == cell_at(
                                    post,
                                    e as int,
                                    aa,
                                    bb - bg,
                                ));
                            } else if bb - bg >= hf {
                                assert(cell_at(post, new_sw as int, aa, bb - bg) == cell_at(
                                    post,
                                    e as int,
                                    aa - hf,
                                    bb - bg - hf,
                                ));
                            } else {
                                assert(-hf <= a < hf && -hf <= b < hf);
                            }
                        } else {
                            assert(cell_at(post, r as int, aa, bb) == cell_at(
                                post,
                                new_se as int,
                                aa - bg,
                                bb - bg,
                            ));
                            if aa - bg >= hf && bb - bg < hf {
                                assert(cell_at(post, new_se as int, aa - bg, bb - bg) == cell_at(
                                    post,
                                    e as int,
                                    aa - bg - hf,
                                    bb - bg,
                                ));
                            } else if aa - bg >= hf {
                                assert(cell_at(post, new_se as int, aa - bg, bb - bg) == cell_at(
                                    post,
                                    e as int,
                                    aa - bg - hf,
                                    bb - bg - hf,
                                ));
                            } else if bb - bg >= hf {
                                assert(cell_at(post, new_se as int, aa - bg, bb - bg) == cell_at(
                                    post,
                                    e as int,
                                    aa - bg,
                                    bb - bg - hf,
                                ));
                            } else {
                                assert(-hf <= a < hf && -hf <= b < hf);
                            }
                        }
                    }
                }
            }
        }
    }

    /// The state and live-neighbour count of the cell at `(x, y)` of
    /// a level-2 node, for the four interior cells of its 4 by 4 block.
    #[verifier::rlimit(60)]
    #[verifier::spinoff_prover]
    fn cell9(&self, h: usize, x: u64, y: u64) -> (r: (bool, u8))
        requires
            self.wf(),
            (h as int) < self.arena().len(),
            self.arena()[h as int].level == 2,
            1 <= x <= 2,
            1 <= y <= 2,
        ensures
            r.0 == cell_at(self.arena(), h as int, x as int, y as int),
            r.1 as nat == neighbors4(self.arena(), h as int, x as int, y as int),
            self.arena()[h as int].population == 0 ==> !r.0 && r.1 == 0,
    {
        let c = self.get_cell_recursive(h, x, y);
        let n1 = self.get_cell_recursive(h, x - 1, y - 1);
        let n2 = self.get_cell_recursive(h, x, y - 1);
        let n3 = self.get_cell_recursive(h, x + 1, y - 1);
        let n4 = self.get_cell_recursive(h, x - 1, y);
        let n5 = self.get_cell_recursive(h, x + 1, y);
        let n6 = self.get_cell_recursive(h, x - 1, y + 1);
        let n7 = self.get_cell_recursive(h, x, y + 1);
        let n8 = self.get_cell_recursive(h, x + 1, y + 1);
        let k: u8 = (if n1 { 1u8 } else { 0u8 }) + (if n2 { 1u8 } else { 0u8 }) + (if n3 {
            1u8
        } else {
            0u8
        }) + (if n4 { 1u8 } else { 0u8 }) + (if n5 { 1u8 } else { 0u8 }) + (if n6 {
            1u8
        } else {
            0u8
        }) + (if n7 { 1u8 } else { 0u8 }) + (if n8 { 1u8 } else { 0u8 });
        proof {
            if self.arena()[h as int].population == 0 {
                lemma_empty_node_cells(self.arena(), h as int, x as int, y as int);
                lemma_empty_node_cells(self.arena(), h as int, x - 1, y - 1);
                lemma_empty_node_cells(self.arena(), h as int, x as int, y - 1);
                lemma_empty_node_cells(self.arena(), h as int, x + 1, y - 1);
                lemma_empty_node_cells(self.arena(), h as int, x - 1, y as int);
                lemma_empty_node_cells(self.arena(), h as int, x + 1, y as int);
                lemma_empty_node_cells(self.arena(), h as int, x - 1, y + 1);
                lemma_empty_node_cells(self.arena(), h as int, x as int, y + 1);
                lemma_empty_node_cells(self.arena(), h as int, x + 1, y + 1);
            }
        }
        (c, k)
    }

    /// Apply the rule to the four interior cells of a level-2 node:
    /// the next state of the cells at (1,1), (2,1), (1,2) and (2,2),
    /// in that order.
    fn base_bits(&self, h: usize) -> (bits: (bool, bool, bool, bool))
        requires
            self.wf(),
            (h as int) < self.arena().len(),
            self.arena()[h as int].level == 2,
        ensures
            bits.0 == crate::rule::life_rule(
                cell_at(self.arena(), h as int, 1, 1),
                neighbors4(self.arena(), h as int, 1, 1),
            ),
            bits.1 == crate::rule::life_rule(
                cell_at(self.arena(), h as int, 2, 1),
                neighbors4(self.arena(), h as int, 2, 1),
            ),
            bits.2 == crate::rule::life_rule(
                cell_at(self.arena(), h as int, 1, 2),
                neighbors4(self.arena(), h as int, 1, 2),
            ),
            bits.3 == crate::rule::life_rule(
                cell_at(self.arena(), h as int, 2, 2),
                neighbors4(self.arena(), h as int, 2, 2),
            ),
            self.arena()[h as int].population == 0 ==> !bits.0 && !bits.1 && !bits.2 && !bits.3,
    {
        let (c11, k11) = self.cell9(h, 1, 1);
        let (c21, k21) = self.cell9(h, 2, 1);
        let (c12, k12) = self.cell9(h, 1, 2);
        let (c22, k22) = self.cell9(h, 2, 2);
        let b00 = crate::rule::next_state(c11, k11);
        let b10 = crate::rule::next_state(c21, k21);
        let b01 = crate::rule::next_state(c12, k12);
        let b11 = crate::rule::next_state(c22, k22);
        (b00, b10, b01, b11)
    }

    /// Advance the 4 by 4 region of a level-2 node by one generation
    /// and intern its 2 by 2 interior: the four cells with a full
    /// neighbourhood inside the block.
    #[verifier::rlimit(60)]
    #[verifier::spinoff_prover]
    fn next_gen_4x4(&mut self, h: usize) -> (r: usize)
        requires
            old(self).wf(),
            (h as int) < old(self).arena().len(),
            old(self).arena()[h as int].level == 2,
        ensures
            final(self).wf(),
            grows_to(old(self).arena(), final(self).arena()),
            final(self).root_spec() == old(self).root_spec(),
            final(self).generation_spec() == old(self).generation_spec(),
            (r as int) < final(self).arena().len(),
            final(self).arena()[r as int].level == 1,
            old(self).arena()[h as int].population == 0 ==> final(self).arena()[r as int].population
                == 0,
            advanced_ok(old(self).arena(), h as int, final(self).arena(), r as int),
    {
        let (b00, b10, b01, b11) = self.base_bits(h);
        let l00: usize = if b00 {
            1
        } else {
            0
        };
        let l10: usize = if b10 {
            1
        } else {
            0
        };
        let l01: usize = if b01 {
            1
        } else {
            0
        };
        let l11: usize = if b11 {
            1
        } else {
            0
        };
        let r = self.get_node(1, l00, l10, l01, l11);
        proof {
            let pre = old(self).arena();
            let post = self.arena();
            lemma2_to64();
            assert(node_ok(post, r as int));
            assert(cell_at(post, r as int, 0, 0) == cell_at(post, l00 as int, 0, 0));
            assert(cell_at(post, l00 as int, 0, 0) == b00);
            assert(cell_at(post, r as int, 1, 0) == cell_at(post, l10 as int, 0, 0));
            assert(cell_at(post, l10 as int, 0, 0) == b10);
            assert(cell_at(post, r as int, 0, 1) == cell_at(post, l01 as int, 0, 0));
            assert(cell_at(post, l01 as int, 0, 0) == b01);
            assert(cell_at(post, r as int, 1, 1) == cell_at(post, l11 as int, 0, 0));
            assert(cell_at(post, l11 as int, 0, 0) == b11);
            let c = node_config(pre, h as int);
            assert(crate::rule::life_after(c, 0) == c);
            assert forall|a: int, b: int|
                0 <= a < 2 && 0 <= b < 2 implies #[trigger] cell_at(post, r as int, a, b)
                == crate::rule::life_after(c, 1)(a + 1, b + 1) by {
                if a == 0 && b == 0 {
                    assert(cell_at(post, r as int, a, b) == b00);
                } else if a == 1 && b == 0 {
                    assert(cell_at(post, r as int, a, b) == b10);
                } else if a == 0 && b == 1 {
                    assert(cell_at(post, r as int, a, b) == b01);
                } else {
                    assert(cell_at(post, r as int, a, b) == b11);
                }
                assert(crate::rule::life_after(c, 1)(a + 1, b + 1) == crate::rule::life_rule(
                    c(a + 1, b + 1),
                    crate::rule::live_neighbors(c, a + 1, b + 1),
                ));
                assert(c(a + 1, b + 1) == cell_at(pre, h as int, a + 1, b + 1));
                assert(crate::rule::live_neighbors(c, a + 1, b + 1) == neighbors4(
                    pre,
                    h as int,
                    a + 1,
                    b + 1,
                ));
            }
            assert(advanced_ok(pre, h as int, post, r as int));
        }
        r
    }

    /// Intern the node one level smaller at the exact geometric center
    /// of `h`'s region, assembled from the inner corners of `h`'s four
    /// children.
    fn centered_subnode(&mut self, h: usize) -> (r: usize)
        requires
            old(self).wf(),
            (h as int) < old(self).arena().len(),
            old(self).arena()[h as int].level >= 2,
        ensures
            final(self).wf(),
            grows_to(old(self).arena(), final(self).arena()),
            final(self).root_spec() == old(self).root_spec(),
            final(self).generation_spec() == old(self).generation_spec(),
            (r as int) < final(self).arena().len(),
            final(self).arena()[r as int].level + 1 == old(self).arena()[h as int].level,
            old(self).arena()[h as int].population == 0 ==> final(self).arena()[r as int].population
                == 0,
            forall|a: int, b: int|
                0 <= a < pow2((old(self).arena()[h as int].level - 1) as nat) && 0 <= b < pow2(
                    (old(self).arena()[h as int].level - 1) as nat,
                ) ==> #[trigger] cell_at(final(self).arena(), r as int, a, b) == cell_at(
                    old(self).arena(),
                    h as int,
                    a + pow2((old(self).arena()[h as int].level - 2) as nat),
                    b + pow2((old(self).arena()[h as int].level - 2) as nat),
                ),
    {
        proof {
            assert(node_ok(self.arena(), h as int));
        }
        let n = self.nodes[h];
        proof {
            assert(node_ok(self.arena(), n.nw as int));
            assert(node_ok(self.arena(), n.ne as int));
            assert(node_ok(self.arena(), n.sw as int));
            assert(node_ok(self.arena(), n.se as int));
        }
        let nw = self.nodes[n.nw];
        let ne = self.nodes[n.ne];
        let sw = self.nodes[n.sw];
        let se = self.nodes[n.se];
        let r = self.get_node(n.level - 1, nw.se, ne.sw, sw.ne, se.nw);
        proof {
            let pre = old(self).arena();
            let post = self.arena();
            let hh = h as int;
            let rr = r as int;
            let q2 = pow2((pre[hh].level - 2) as nat) as int;
            vstd::arithmetic::power2::lemma_pow2_unfold((pre[hh].level - 1) as nat);
            lemma_child_cells(pre, hh);
            lemma_child_cells(pre, pre[hh].nw as int);
            lemma_child_cells(pre, pre[hh].ne as int);
            lemma_child_cells(pre, pre[hh].sw as int);
            lemma_child_cells(pre, pre[hh].se as int);
            let g = |x: int, y: int| cell_at(pre, hh, x, y);
            assert forall|x: int, y: int|
                0 <= x < q2 && 0 <= y < q2 implies #[trigger] cell_at(
                post,
                post[rr].nw as int,
                x,
                y,
            ) == g(x + q2, y + q2) by {
                lemma_cell_at_grow(pre, post, post[rr].nw as int, x, y);
                assert(cell_at(pre, post[rr].nw as int, x, y) == cell_at(
                    pre,
                    pre[hh].nw as int,
                    x + q2,
                    y + q2,
                ));
            }
            assert forall|x: int, y: int|
                0 <= x < q2 && 0 <= y < q2 implies #[trigger] cell_at(
                post,
                post[rr].ne as int,
                x,
                y,
            ) == g(x + q2 + q2, y + q2) by {
                lemma_cell_at_grow(pre, post, post[rr].ne as int, x, y);
                assert(cell_at(pre, post[rr].ne as int, x, y) == cell_at(
                    pre,
                    pre[hh].ne as int,
                    x,
                    y + q2,
                ));
            }
            assert forall|x: int, y: int|
                0 <= x < q2 && 0 <= y < q2 implies #[trigger] cell_at(
                post,
                post[rr].sw as int,
                x,
                y,
            ) == g(x + q2, y + q2 + q2) by {
                lemma_cell_at_grow(pre, post, post[rr].sw as int, x, y);
                assert(cell_at(pre, post[rr].sw as int, x, y) == cell_at(
                    pre,
                    pre[hh].sw as int,
                    x + q2,
                    y,
                ));
            }
            assert forall|x: int, y: int|
                0 <= x < q2 && 0 <= y < q2 implies #[trigger] cell_at(
                post,
                post[rr].se as int,
                x,
                y,
            ) == g(x + q2 + q2, y + q2 + q2) by {
                lemma_cell_at_grow(pre, post, post[rr].se as int, x, y);
                assert(cell_at(pre, post[rr].se as int, x, y) == cell_at(
                    pre,
                    pre[hh].se as int,
                    x,
                    y,
                ));
            }
            lemma_quad_assemble(post, rr, g, q2, q2);
        }
        r
    }

    /// Intern the nine overlapping half-size sub-squares that tile the
    /// region of `h` with 50% overlap, row by row: the four children
    /// themselves, the four edge-centered squares, and the center.
    /// Each one reads `h`'s cells at its own offset.
    #[verifier::rlimit(100)]
    #[verifier::spinoff_prover]
    fn sub_squares(&mut self, h: usize) -> (t: (
        usize,
        usize,
        usize,
        usize,
        usize,
        usize,
        usize,
        usize,
        usize,
    ))
        requires
            old(self).wf(),
            (h as int) < old(self).arena().len(),
            3 <= old(self).arena()[h as int].level,
        ensures
            final(self).wf(),
            grows_to(old(self).arena(), final(self).arena()),
            final(self).root_spec() == old(self).root_spec(),
            final(self).generation_spec() == old(self).generation_spec(),
            (t.0 as int) < final(self).arena().len(),
            (t.1 as int) < final(self).arena().len(),
            (t.2 as int) < final(self).arena().len(),
            (t.3 as int) < final(self).arena().len(),
            (t.4 as int) < final(self).arena().len(),
            (t.5 as int) < final(self).arena().len(),
            (t.6 as int) < final(self).arena().len(),
            (t.7 as int) < final(self).arena().len(),
            (t.8 as int) < final(self).arena().len(),
            final(self).arena()[t.0 as int].level + 1 == old(self).arena()[h as int].level,
            final(self).arena()[t.1 as int].level + 1 == old(self).arena()[h as int].level,
            final(self).arena()[t.2 as int].level + 1 == old(self).arena()[h as int].level,
            final(self).arena()[t.3 as int].level + 1 == old(self).arena()[h as int].level,
            final(self).arena()[t.4 as int].level + 1 == old(self).arena()[h as int].level,
            final(self).arena()[t.5 as int].level + 1 == old(self).arena()[h as int].level,
            final(self).arena()[t.6 as int].level + 1 == old(self).arena()[h as int].level,
            final(self).arena()[t.7 as int].level + 1 == old(self).arena()[h as int].level,
            final(self).arena()[t.8 as int].level + 1 == old(self).arena()[h as int].level,
            old(self).arena()[h as int].population == 0 ==> final(self).arena()[t.0 as int].population
                == 0 && final(self).arena()[t.1 as int].population == 0 && final(self).arena()[t.2 as int].population == 0 && final(self).arena()[t.3 as int].population == 0
                && final(self).arena()[t.4 as int].population == 0 && final(self).arena()[t.5 as int].population == 0 && final(self).arena()[t.6 as int].population == 0
                && final(self).arena()[t.7 as int].population == 0 && final(self).arena()[t.8 as int].population == 0,
            ({
                let pre = old(self).arena();
                let post = final(self).arena();
                let d = pow2((pre[h as int].level - 2) as nat) as int;
                &&& reads_at(pre, h as int, post, t.0 as int, 0, 0)
                &&& reads_at(pre, h as int, post, t.1 as int, d, 0)
                &&& reads_at(pre, h as int, post, t.2 as int, 2 * d, 0)
                &&& reads_at(pre, h as int, post, t.3 as int, 0, d)
                &&& reads_at(pre, h as int, post, t.4 as int, d, d)
                &&& reads_at(pre, h as int, post, t.5 as int, 2 * d, d)
                &&& reads_at(pre, h as int, post, t.6 as int, 0, 2 * d)
                &&& reads_at(pre, h as int, post, t.7 as int, d, 2 * d)
                &&& reads_at(pre, h as int, post, t.8 as int, 2 * d, 2 * d)
            }),
    {
        proof {
            assert(node_ok(self.arena(), h as int));
        }
        let n = self.nodes[h];
        proof {
            assert(node_ok(self.arena(), n.nw as int));
            assert(node_ok(self.arena(), n.ne as int));
            assert(node_ok(self.arena(), n.sw as int));
            assert(node_ok(self.arena(), n.se as int));
        }
        let lm1 = n.level - 1;
        let nw = self.nodes[n.nw];
        let ne = self.nodes[n.ne];
        let sw = self.nodes[n.sw];
        let se = self.nodes[n.se];
        let n01 = self.get_node(lm1, nw.ne, ne.nw, nw.se, ne.sw);
        let n10 = self.get_node(lm1, nw.sw, nw.se, sw.nw, sw.ne);
        let ghost a2 = self.arena();
        let n11 = self.centered_subnode(h);
        let ghost a3 = self.arena();
        let n12 = self.get_node(lm1, ne.sw, ne.se, se.nw, se.ne);
        let n21 = self.get_node(lm1, sw.ne, se.nw, sw.se, se.sw);
        proof {
            let pre = old(self).arena();
            let post = self.arena();
            let hh = h as int;
            let d = pow2((pre[hh].level - 2) as nat) as int;
            let hf = pow2((pre[hh].level - 1) as nat) as int;
            vstd::arithmetic::power2::lemma_pow2_unfold((pre[hh].level - 1) as nat);
            lemma_child_cells(pre, hh);
            lemma_grandchild_cells(pre, hh);
            assert forall|x: int, y: int|
                0 <= x < hf && 0 <= y < hf implies #[trigger] cell_at(
                post,
                pre[hh].nw as int,
                x,
                y,
            ) == cell_at(pre, hh, x, y) by {
                lemma_cell_at_grow(pre, post, pre[hh].nw as int, x, y);
            }
            assert(reads_at(pre, hh, post, pre[hh].nw as int, 0, 0));
            assert forall|x: int, y: int|
                0 <= x < hf && 0 <= y < hf implies #[trigger] cell_at(
                post,
                pre[hh].ne as int,
                x,
                y,
            ) == cell_at(pre, hh, x + 2 * d, y) by {
                lemma_cell_at_grow(pre, post, pre[hh].ne as int, x, y);
            }
            assert(reads_at(pre, hh, post, pre[hh].ne as int, 2 * d, 0));
            assert forall|x: int, y: int|
                0 <= x < hf && 0 <= y < hf implies #[trigger] cell_at(
                post,
                pre[hh].sw as int,
                x,
                y,
            ) == cell_at(pre, hh, x, y + 2 * d) by {
                lemma_cell_at_grow(pre, post, pre[hh].sw as int, x, y);
            }
            assert(reads_at(pre, hh, post, pre[hh].sw as int, 0, 2 * d));
            assert forall|x: int, y: int|
                0 <= x < hf && 0 <= y < hf implies #[trigger] cell_at(
                post,
                pre[hh].se as int,
                x,
                y,
            ) == cell_at(pre, hh, x + 2 * d, y + 2 * d) by {
                lemma_cell_at_grow(pre, post, pre[hh].se as int, x, y);
            }
            assert(reads_at(pre, hh, post, pre[hh].se as int, 2 * d, 2 * d));
            lemma_assembled_square(pre, post, hh, n01 as int, d, 0);
            lemma_assembled_square(pre, post, hh, n10 as int, 0, d);
            lemma_assembled_square(pre, post, hh, n12 as int, 2 * d, d);
            lemma_assembled_square(pre, post, hh, n21 as int, d, 2 * d);
            assert forall|x: int, y: int|
                0 <= x < hf && 0 <= y < hf implies #[trigger] cell_at(post, n11 as int, x, y)
                == cell_at(pre, hh, x + d, y + d) by {
                lemma_cell_at_grow(a3, post, n11 as int, x, y);
                lemma_cell_at_grow(pre, a2, hh, x + d, y + d);
            }
            assert(reads_at(pre, hh, post, n11 as int, d, d));
        }
        (n.nw, n01, n.ne, n10, n11, n12, n.sw, n21, n.se)
    }

    /// Record the advanced result of node `h` in its memo slot.
    fn memo_store(&mut self, h: usize, res: usize)
        requires
            old(self).wf(),
            (h as int) < old(self).arena().len(),
            (res as int) < old(self).arena().len(),
            2 <= old(self).arena()[h as int].level,
            old(self).arena()[res as int].level + 1 == old(self).arena()[h as int].level,
            old(self).arena()[h as int].population == 0 ==> old(self).arena()[res as int].population
                == 0,
            advanced_ok(old(self).arena(), h as int, old(self).arena(), res as int),
        ensures
            final(self).wf(),
            final(self).arena() == old(self).arena(),
            final(self).root_spec() == old(self).root_spec(),
            final(self).generation_spec() == old(self).generation_spec(),
    {
        self.memo[h] = Some(res);
        proof {
            let post = self.arena();
            assert forall|k: int| 0 <= k < self.memo@.len() implies memo_entry_ok(
                post,
                k,
                #[trigger] self.memo@[k],
            ) by {
                if k != h as int {
                    assert(self.memo@[k] == old(self).memo@[k]);
                    assert(memo_entry_ok(post, k, old(self).memo@[k]));
                }
            }
        }
    }

    /// Advance each of the nine sub-squares, which share one level.
    #[verifier::rlimit(100)]
    #[verifier::spinoff_prover]
    fn advance_nine(&mut self, t: (usize, usize, usize, usize, usize, usize, usize, usize, usize))
        -> (r: (usize, usize, usize, usize, usize, usize, usize, usize, usize))
        requires
            old(self).wf(),
            (t.0 as int) < old(self).arena().len(),
            (t.1 as int) < old(self).arena().len(),
            (t.2 as int) < old(self).arena().len(),
            (t.3 as int) < old(self).arena().len(),
            (t.4 as int) < old(self).arena().len(),
            (t.5 as int) < old(self).arena().len(),
            (t.6 as int) < old(self).arena().len(),
            (t.7 as int) < old(self).arena().len(),
            (t.8 as int) < old(self).arena().len(),
            2 <= old(self).arena()[t.0 as int].level,
            old(self).arena()[t.1 as int].level == old(self).arena()[t.0 as int].level,
            old(self).arena()[t.2 as int].level == old(self).arena()[t.0 as int].level,
            old(self).arena()[t.3 as int].level == old(self).arena()[t.0 as int].level,
            old(self).arena()[t.4 as int].level == old(self).arena()[t.0 as int].level,
            old(self).arena()[t.5 as int].level == old(self).arena()[t.0 as int].level,
            old(self).arena()[t.6 as int].level == old(self).arena()[t.0 as int].level,
            old(self).arena()[t.7 as int].level == old(self).arena()[t.0 as int].level,
            old(self).arena()[t.8 as int].level == old(self).arena()[t.0 as int].level,
        ensures
            final(self).wf(),
            grows_to(old(self).arena(), final(self).arena()),
            final(self).root_spec() == old(self).root_spec(),
            final(self).generation_spec() == old(self).generation_spec(),
            (r.0 as int) < final(self).arena().len(),
            (r.1 as int) < final(self).arena().len(),
            (r.2 as int) < final(self).arena().len(),
            (r.3 as int) < final(self).arena().len(),
            (r.4 as int) < final(self).arena().len(),
            (r.5 as int) < final(self).arena().len(),
            (r.6 as int) < final(self).arena().len(),
            (r.7 as int) < final(self).arena().len(),
            (r.8 as int) < final(self).arena().len(),
            final(self).arena()[r.0 as int].level + 1 == old(self).arena()[t.0 as int].level,
            final(self).arena()[r.1 as int].level + 1 == old(self).arena()[t.0 as int].level,
            final(self).arena()[r.2 as int].level + 1 == old(self).arena()[t.0 as int].level,
            final(self).arena()[r.3 as int].level + 1 == old(self).arena()[t.0 as int].level,
            final(self).arena()[r.4 as int].level + 1 == old(self).arena()[t.0 as int].level,
            final(self).arena()[r.5 as int].level + 1 == old(self).arena()[t.0 as int].level,
            final(self).arena()[r.6 as int].level + 1 == old(self).arena()[t.0 as int].level,
            final(self).arena()[r.7 as int].level + 1 == old(self).arena()[t.0 as int].level,
            final(self).arena()[r.8 as int].level + 1 == old(self).arena()[t.0 as int].level,
            old(self).arena()[t.0 as int].population == 0 ==> final(self).arena()[r.0 as int].population == 0,
            old(self).arena()[t.1 as int].population == 0 ==> final(self).arena()[r.1 as int].population == 0,
            old(self).arena()[t.2 as int].population == 0 ==> final(self).arena()[r.2 as int].population == 0,
            old(self).arena()[t.3 as int].population == 0 ==> final(self).arena()[r.3 as int].population == 0,
            old(self).arena()[t.4 as int].population == 0 ==> final(self).arena()[r.4 as int].population == 0,
            old(self).arena()[t.5 as int].population == 0 ==> final(self).arena()[r.5 as int].population == 0,
            old(self).arena()[t.6 as int].population == 0 ==> final(self).arena()[r.6 as int].population == 0,
            old(self).arena()[t.7 as int].population == 0 ==> final(self).arena()[r.7 as int].population == 0,
            old(self).arena()[t.8 as int].population == 0 ==> final(self).arena()[r.8 as int].population == 0,
            advanced_ok(old(self).arena(), t.0 as int, final(self).arena(), r.0 as int),
            advanced_ok(old(self).arena(), t.1 as int, final(self).arena(), r.1 as int),
            advanced_ok(old(self).arena(), t.2 as int, final(self).arena(), r.2 as int),
            advanced_ok(old(self).arena(), t.3 as int, final(self).arena(), r.3 as int),
            advanced_ok(old(self).arena(), t.4 as int, final(self).arena(), r.4 as int),
            advanced_ok(old(self).arena(), t.5 as int, final(self).arena(), r.5 as int),
            advanced_ok(old(self).arena(), t.6 as int, final(self).arena(), r.6 as int),
            advanced_ok(old(self).arena(), t.7 as int, final(self).arena(), r.7 as int),
            advanced_ok(old(self).arena(), t.8 as int, final(self).arena(), r.8 as int),
        decreases old(self).arena()[t.0 as int].level, 1int,
    {
        let ghost s0 = self.arena();
        let r0 = self.next_generation(t.0);
        let ghost s1 = self.arena();
        let r1 = self.next_generation(t.1);
        let ghost s2 = self.arena();
        let r2 = self.next_generation(t.2);
        let ghost s3 = self.arena();
        let r3 = self.next_generation(t.3);
        let ghost s4 = self.arena();
        let r4 = self.next_generation(t.4);
        let ghost s5 = self.arena();
        let r5 = self.next_generation(t.5);
        let ghost s6 = self.arena();
        let r6 = self.next_generation(t.6);
        let ghost s7 = self.arena();
        let r7 = self.next_generation(t.7);
        let ghost s8 = self.arena();
        let r8 = self.next_generation(t.8);
        proof {
            let pre = old(self).arena();
            let post = self.arena();
            lemma_grows_trans(s7, s8, post);
            lemma_grows_trans(s6, s7, post);
            lemma_grows_trans(s5, s6, post);
            lemma_grows_trans(s4, s5, post);
            lemma_grows_trans(s3, s4, post);
            lemma_grows_trans(s2, s3, post);
            lemma_grows_trans(s1, s2, post);
            lemma_grows_trans(pre, s1, s2);
            lemma_grows_trans(pre, s2, s3);
            lemma_grows_trans(pre, s3, s4);
            lemma_grows_trans(pre, s4, s5);
            lemma_grows_trans(pre, s5, s6);
            lemma_grows_trans(pre, s6, s7);
            lemma_grows_trans(pre, s7, s8);
            lemma_advanced_ok_frame(pre, s0, s1, s1, t.0 as int, r0 as int);
            lemma_advanced_ok_frame(pre, pre, s1, post, t.0 as int, r0 as int);
            lemma_advanced_ok_frame(pre, s1, s2, s2, t.1 as int, r1 as int);
            lemma_advanced_ok_frame(pre, pre, s2, post, t.1 as int, r1 as int);
            lemma_advanced_ok_frame(pre, s2, s3, s3, t.2 as int, r2 as int);
            lemma_advanced_ok_frame(pre, pre, s3, post, t.2 as int, r2 as int);
            lemma_advanced_ok_frame(pre, s3, s4, s4, t.3 as int, r3 as int);
            lemma_advanced_ok_frame(pre, pre, s4, post, t.3 as int, r3 as int);
            lemma_advanced_ok_frame(pre, s4, s5, s5, t.4 as int, r4 as int);
            lemma_advanced_ok_frame(pre, pre, s5, post, t.4 as int, r4 as int);
            lemma_advanced_ok_frame(pre, s5, s6, s6, t.5 as int, r5 as int);
            lemma_advanced_ok_frame(pre, pre, s6, post, t.5 as int, r5 as int);
            lemma_advanced_ok_frame(pre, s6, s7, s7, t.6 as int, r6 as int);
            lemma_advanced_ok_frame(pre, pre, s7, post, t.6 as int, r6 as int);
            lemma_advanced_ok_frame(pre, s7, s8, s8, t.7 as int, r7 as int);
            lemma_advanced_ok_frame(pre, pre, s8, post, t.7 as int, r7 as int);
            lemma_advanced_ok_frame(pre, s8, post, post, t.8 as int, r8 as int);
        }
        (r0, r1, r2, r3, r4, r5, r6, r7, r8)
    }

    /// Combine the nine advanced centers into the four overlapping
    /// quadrant squares, advance each, and intern the final result.
    #[verifier::rlimit(100)]
    #[verifier::spinoff_prover]
    fn advance_quads(
        &mut self,
        lm1: u32,
        r: (usize, usize, usize, usize, usize, usize, usize, usize, usize),
        base: Ghost<spec_fn(int, int) -> bool>,
    ) -> (res: usize)
        requires
            old(self).wf(),
            2 <= lm1 <= MAX_LEVEL,
            (r.0 as int) < old(self).arena().len(),
            (r.1 as int) < old(self).arena().len(),
            (r.2 as int) < old(self).arena().len(),
            (r.3 as int) < old(self).arena().len(),
            (r.4 as int) < old(self).arena().len(),
            (r.5 as int) < old(self).arena().len(),
            (r.6 as int) < old(self).arena().len(),
            (r.7 as int) < old(self).arena().len(),
            (r.8 as int) < old(self).arena().len(),
            old(self).arena()[r.0 as int].level + 1 == lm1,
            old(self).arena()[r.1 as int].level + 1 == lm1,
            old(self).arena()[r.2 as int].level + 1 == lm1,
            old(self).arena()[r.3 as int].level + 1 == lm1,
            old(self).arena()[r.4 as int].level + 1 == lm1,
            old(self).arena()[r.5 as int].level + 1 == lm1,
            old(self).arena()[r.6 as int].level + 1 == lm1,
            old(self).arena()[r.7 as int].level + 1 == lm1,
            old(self).arena()[r.8 as int].level + 1 == lm1,
            ({
                let pre = old(self).arena();
                let sn = pow2((lm1 - 2) as nat);
                let s = sn as int;
                let d = pow2((lm1 - 1) as nat) as int;
                &&& (forall|a: int, b: int|
                    0 <= a < d && 0 <= b < d ==> #[trigger] cell_at(pre, r.0 as int, a, b)
                        == crate::rule::life_after(base@, sn)(a + s, b + s))
                &&& (forall|a: int, b: int|
                    0 <= a < d && 0 <= b < d ==> #[trigger] cell_at(pre, r.1 as int, a, b)
                        == crate::rule::life_after(base@, sn)(a + s + d, b + s))
                &&& (forall|a: int, b: int|
                    0 <= a < d && 0 <= b < d ==> #[trigger] cell_at(pre, r.2 as int, a, b)
                        == crate::rule::life_after(base@, sn)(a + s + 2 * d, b + s))
                &&& (forall|a: int, b: int|
                    0 <= a < d && 0 <= b < d ==> #[trigger] cell_at(pre, r.3 as int, a, b)
                        == crate::rule::life_after(base@, sn)(a + s, b + s + d))
                &&& (forall|a: int, b: int|
                    0 <= a < d && 0 <= b < d ==> #[trigger] cell_at(pre, r.4 as int, a, b)
                        == crate::rule::life_after(base@, sn)(a + s + d, b + s + d))
                &&& (forall|a: int, b: int|
                    0 <= a < d && 0 <= b < d ==> #[trigger] cell_at(pre, r.5 as int, a, b)
                        == crate::rule::life_after(base@, sn)(a + s + 2 * d, b + s + d))
                &&& (forall|a: int, b: int|
                    0 <= a < d && 0 <= b < d ==> #[trigger] cell_at(pre, r.6 as int, a, b)
                        == crate::rule::life_after(base@, sn)(a + s, b + s + 2 * d))
                &&& (forall|a: int, b: int|
                    0 <= a < d && 0 <= b < d ==> #[trigger] cell_at(pre, r.7 as int, a, b)
                        == crate::rule::life_after(base@, sn)(a + s + d, b + s + 2 * d))
                &&& (forall|a: int, b: int|
                    0 <= a < d && 0 <= b < d ==> #[trigger] cell_at(pre, r.8 as int, a, b)
                        == crate::rule::life_after(base@, sn)(a + s + 2 * d, b + s + 2 * d))
            }),
        ensures
            final(self).wf(),
            grows_to(old(self).arena(), final(self).arena()),
            final(self).root_spec() == old(self).root_spec(),
            final(self).generation_spec() == old(self).generation_spec(),
            (res as int) < final(self).arena().len(),
            final(self).arena()[res as int].level == lm1,
            (old(self).arena()[r.0 as int].population == 0 && old(self).arena()[r.1 as int].population == 0
                && old(self).arena()[r.2 as int].population == 0
                && old(self).arena()[r.3 as int].population == 0
                && old(self).arena()[r.4 as int].population == 0
                && old(self).arena()[r.5 as int].population == 0
                && old(self).arena()[r.6 as int].population == 0
                && old(self).arena()[r.7 as int].population == 0
                && old(self).arena()[r.8 as int].population == 0) ==> final(
                self).arena()[res as int].population == 0,
            ({
                let post = final(self).arena();
                let dn = pow2((lm1 - 1) as nat);
                let d = dn as int;
                forall|a: int, b: int|
                    0 <= a < 2 * d && 0 <= b < 2 * d ==> #[trigger] cell_at(post, res as int, a, b)
                        == crate::rule::life_after(base@, dn)(a + d, b + d)
            }),
        decreases lm1, 1int,
    {
        let ghost zero = old(self).arena()[r.0 as int].population == 0 && old(
            self).arena()[r.1 as int].population == 0 && old(self).arena()[r.2 as int].population
            == 0 && old(self).arena()[r.3 as int].population == 0 && old(
            self).arena()[r.4 as int].population == 0 && old(self).arena()[r.5 as int].population
            == 0 && old(self).arena()[r.6 as int].population == 0 && old(
            self).arena()[r.7 as int].population == 0 && old(self).arena()[r.8 as int].population
            == 0;
        let ghost sn = pow2((lm1 - 2) as nat);
        let ghost sv = sn as int;
        let ghost dn = pow2((lm1 - 1) as nat);
        let ghost dv = dn as int;
        let ghost g1 = crate::rule::life_after(base@, sn);
        let ghost g2 = crate::rule::life_after(base@, dn);
        proof {
            vstd::arithmetic::power2::lemma_pow2_unfold(lm1 as nat);
            vstd::arithmetic::power2::lemma_pow2_unfold((lm1 - 1) as nat);
        }
        let q_nw = self.get_node(lm1, r.0, r.1, r.3, r.4);
        let ghost t1 = self.arena();
        let q_ne = self.get_node(lm1, r.1, r.2, r.4, r.5);
        let ghost t2 = self.arena();
        let q_sw = self.get_node(lm1, r.3, r.4, r.6, r.7);
        let ghost t3 = self.arena();
        let q_se = self.get_node(lm1, r.4, r.5, r.7, r.8);
        let ghost aq = self.arena();
        proof {
            let pre = old(self).arena();
            lemma_grows_trans(t1, t2, t3);
            lemma_grows_trans(t1, t3, aq);
            lemma_grows_trans(t2, t3, aq);
            assert(aq[q_nw as int] == t1[q_nw as int]);
            assert(aq[q_ne as int] == t2[q_ne as int]);
            assert(aq[q_sw as int] == t3[q_sw as int]);
            if zero {
                assert(aq[q_nw as int].population == 0);
                assert(aq[q_ne as int].population == 0);
                assert(aq[q_sw as int].population == 0);
                assert(aq[q_se as int].population == 0);
            }
            assert forall|x: int, y: int|
                0 <= x < dv && 0 <= y < dv implies #[trigger] cell_at(
                aq,
                aq[q_nw as int].nw as int,
                x,
                y,
            ) == g1(x + sv, y + sv) by {
                lemma_cell_at_grow(pre, aq, r.0 as int, x, y);
            }
            assert forall|x: int, y: int|
                0 <= x < dv && 0 <= y < dv implies #[trigger] cell_at(
                aq,
                aq[q_nw as int].ne as int,
                x,
                y,
            ) == g1(x + sv + dv, y + sv) by {
                lemma_cell_at_grow(pre, aq, r.1 as int, x, y);
            }
            assert forall|x: int, y: int|
                0 <= x < dv && 0 <= y < dv implies #[trigger] cell_at(
                aq,
                aq[q_nw as int].sw as int,
                x,
                y,
            ) == g1(x + sv, y + sv + dv) by {
                lemma_cell_at_grow(pre, aq, r.3 as int, x, y);
            }
            assert forall|x: int, y: int|
                0 <= x < dv && 0 <= y < dv implies #[trigger] cell_at(
                aq,
                aq[q_nw as int].se as int,
                x,
                y,
            ) == g1(x + sv + dv, y + sv + dv) by {
                lemma_cell_at_grow(pre, aq, r.4 as int, x, y);
            }
            assert forall|x: int, y: int|
                0 <= x < dv && 0 <= y < dv implies #[trigger] cell_at(
                aq,
                aq[q_ne as int].nw as int,
                x,
                y,
            ) == g1(x + sv + dv, y + sv) by {
                lemma_cell_at_grow(pre, aq, r.1 as int, x, y);
            }
            assert forall|x: int, y: int|
                0 <= x < dv && 0 <= y < dv implies #[trigger] cell_at(
                aq,
                aq[q_ne as int].ne as int,
                x,
                y,
            ) == g1(x + sv + dv + dv, y + sv) by {
                lemma_cell_at_grow(pre, aq, r.2 as int, x, y);
            }
            assert forall|x: int, y: int|
                0 <= x < dv && 0 <= y < dv implies #[trigger] cell_at(
                aq,
                aq[q_ne as int].sw as int,
                x,
                y,
            ) == g1(x + sv + dv, y + sv + dv) by {
                lemma_cell_at_grow(pre, aq, r.4 as int, x, y);
            }
            assert forall|x: int, y: int|
                0 <= x < dv && 0 <= y < dv implies #[trigger] cell_at(
                aq,
                aq[q_ne as int].se as int,
                x,
                y,
            ) == g1(x + sv + dv + dv, y + sv + dv) by {
                lemma_cell_at_grow(pre, aq, r.5 as int, x, y);
            }
            assert forall|x: int, y: int|
                0 <= x < dv && 0 <= y < dv implies #[trigger] cell_at(
                aq,
                aq[q_sw as int].nw as int,
                x,
                y,
            ) == g1(x + sv, y + sv + dv) by {
                lemma_cell_at_grow(pre, aq, r.3 as int, x, y);
            }
            assert forall|x: int, y: int|
                0 <= x < dv && 0 <= y < dv implies #[trigger] cell_at(
                aq,
                aq[q_sw as int].ne as int,
                x,
                y,
            ) == g1(x + sv + dv, y + sv + dv) by {
                lemma_cell_at_grow(pre, aq, r.4 as int, x, y);
            }
            assert forall|x: int, y: int|
                0 <= x < dv && 0 <= y < dv implies #[trigger] cell_at(
                aq,
                aq[q_sw as int].sw as int,
                x,
                y,
            ) == g1(x + sv, y + sv + dv + dv) by {
                lemma_cell_at_grow(pre, aq, r.6 as int, x, y);
            }
            assert forall|x: int, y: int|
                0 <= x < dv && 0 <= y < dv implies #[trigger] cell_at(
                aq,
                aq[q_sw as int].se as int,
                x,
                y,
            ) == g1(x + sv + dv, y + sv + dv + dv) by {
                lemma_cell_at_grow(pre, aq, r.7 as int, x, y);
            }
            assert forall|x: int, y: int|
                0 <= x < dv && 0 <= y < dv implies #[trigger] cell_at(
                aq,
                aq[q_se as int].nw as int,
                x,
                y,
            ) == g1(x + sv + dv, y + sv + dv) by {
                lemma_cell_at_grow(pre, aq, r.4 as int, x, y);
            }
            assert forall|x: int, y: int|
                0 <= x < dv && 0 <= y < dv implies #[trigger] cell_at(
                aq,
                aq[q_se as int].ne as int,
                x,
                y,
            ) == g1(x + sv + dv + dv, y + sv + dv) by {
                lemma_cell_at_grow(pre, aq, r.5 as int, x, y);
            }
            assert forall|x: int, y: int|
                0 <= x < dv && 0 <= y < dv implies #[trigger] cell_at(
                aq,
                aq[q_se as int].sw as int,
                x,
                y,
            ) == g1(x + sv + dv, y + sv + dv + dv) by {
                lemma_cell_at_grow(pre, aq, r.7 as int, x, y);
            }
            assert forall|x: int, y: int|
                0 <= x < dv && 0 <= y < dv implies #[trigger] cell_at(
                aq,
                aq[q_se as int].se as int,
                x,
                y,
            ) == g1(x + sv + dv + dv, y + sv + dv + dv) by {
                lemma_cell_at_grow(pre, aq, r.8 as int, x, y);
            }
            lemma_quad_assemble(aq, q_nw as int, g1, sv, sv);
            lemma_quad_assemble(aq, q_ne as int, g1, sv + dv, sv);
            lemma_quad_assemble(aq, q_sw as int, g1, sv, sv + dv);
            lemma_quad_assemble(aq, q_se as int, g1, sv + dv, sv + dv);
        }
        let a_nw = self.next_generation(q_nw);
        let ghost b1 = self.arena();
        let a_ne = self.next_generation(q_ne);
        let ghost b2 = self.arena();
        let a_sw = self.next_generation(q_sw);
        let ghost b3 = self.arena();
        let a_se = self.next_generation(q_se);
        let ghost b4 = self.arena();
        proof {
            lemma_grows_trans(aq, b1, b2);
            lemma_grows_trans(aq, b2, b3);
            assert forall|x: int, y: int|
                0 <= x < 2 * dv && 0 <= y < 2 * dv implies #[trigger] cell_at(
                b1,
                q_ne as int,
                x,
                y,
            ) == g1(x + sv + dv, y + sv) by {
                lemma_cell_at_grow(aq, b1, q_ne as int, x, y);
            }
            assert forall|x: int, y: int|
                0 <= x < 2 * dv && 0 <= y < 2 * dv implies #[trigger] cell_at(
                b2,
                q_sw as int,
                x,
                y,
            ) == g1(x + sv, y + sv + dv) by {
                lemma_cell_at_grow(aq, b2, q_sw as int, x, y);
            }
            assert forall|x: int, y: int|
                0 <= x < 2 * dv && 0 <= y < 2 * dv implies #[trigger] cell_at(
                b3,
                q_se as int,
                x,
                y,
            ) == g1(x + sv + dv, y + sv + dv) by {
                lemma_cell_at_grow(aq, b3, q_se as int, x, y);
            }
            lemma_rebase_add(aq, q_nw as int, b1, a_nw as int, base@, sn, sv, sv);
            lemma_rebase_add(b1, q_ne as int, b2, a_ne as int, base@, sn, sv + dv, sv);
            lemma_rebase_add(b2, q_sw as int, b3, a_sw as int, base@, sn, sv, sv + dv);
            lemma_rebase_add(b3, q_se as int, b4, a_se as int, base@, sn, sv + dv, sv + dv);
        }
        let res = self.get_node(lm1, a_nw, a_ne, a_sw, a_se);
        proof {
            let post = self.arena();
            lemma_grows_trans(b1, b2, b3);
            lemma_grows_trans(b1, b3, b4);
            lemma_grows_trans(b2, b3, b4);
            lemma_grows_trans(b1, b4, post);
            lemma_grows_trans(b2, b4, post);
            lemma_grows_trans(b3, b4, post);
            assert(sn + sn == dn);
            assert(post[res as int].nw == a_nw && post[res as int].ne == a_ne && post[
                res as int].sw == a_sw && post[res as int].se == a_se);
            assert forall|x: int, y: int|
                0 <= x < dv && 0 <= y < dv implies #[trigger] cell_at(
                post,
                post[res as int].nw as int,
                x,
                y,
            ) == g2(x + dv, y + dv) by {
                lemma_cell_at_grow(b1, post, a_nw as int, x, y);
            }
            assert forall|x: int, y: int|
                0 <= x < dv && 0 <= y < dv implies #[trigger] cell_at(
                post,
                post[res as int].ne as int,
                x,
                y,
            ) == g2(x + dv + dv, y + dv) by {
                lemma_cell_at_grow(b2, post, a_ne as int, x, y);
            }
            assert forall|x: int, y: int|
                0 <= x < dv && 0 <= y < dv implies #[trigger] cell_at(
                post,
                post[res as int].sw as int,
                x,
                y,
            ) == g2(x + dv, y + dv + dv) by {
                lemma_cell_at_grow(b3, post, a_sw as int, x, y);
            }
            assert forall|x: int, y: int|
                0 <= x < dv && 0 <= y < dv implies #[trigger] cell_at(
                post,
                post[res as int].se as int,
                x,
                y,
            ) == g2(x + dv + dv, y + dv + dv) by {
                lemma_cell_at_grow(b4, post, a_se as int, x, y);
            }
            lemma_quad_assemble(post, res as int, g2, dv, dv);
        }
        res
    }

    /// The memoized macro-step of the engine: advance node `h`'s
    /// region and return the node one level smaller holding its center,
    /// moved forward by a quarter of the region's side length in
    /// generations, exactly as [`advanced_ok`] states.  A cached result
    /// is returned at once; otherwise a level-2 node is advanced
    /// directly, and a larger node is advanced through nine overlapping
    /// half-size sub-squares whose advanced centers are combined and
    /// advanced once more.
    #[verifier::rlimit(100)]
    #[verifier::spinoff_prover]
    fn next_generation(&mut self, h: usize) -> (r: usize)
        requires
            old(self).wf(),
            (h as int) < old(self).arena().len(),
            2 <= old(self).arena()[h as int].level,
        ensures
            final(self).wf(),
            grows_to(old(self).arena(), final(self).arena()),
            final(self).root_spec() == old(self).root_spec(),
            final(self).generation_spec() == old(self).generation_spec(),
            (r as int) < final(self).arena().len(),
            final(self).arena()[r as int].level + 1 == old(self).arena()[h as int].level,
            old(self).arena()[h as int].population == 0 ==> final(self).arena()[r as int].population
                == 0,
            advanced_ok(old(self).arena(), h as int, final(self).arena(), r as int),
        decreases old(self).arena()[h as int].level, 0int,
    {
        let m = self.memo[h];
        if let Some(cached) = m {
            proof {
                assert(memo_entry_ok(self.arena(), h as int, self.memo@[h as int]));
            }
            return cached;
        }
        proof {
            assert(node_ok(self.arena(), h as int));
        }
        let n = self.nodes[h];
        let res: usize;
        if n.level == 2 {
            res = self.next_gen_4x4(h);
        } else {
            let lm1 = n.level - 1;
            let ghost pre = self.arena();
            let ghost cfg = node_config(pre, h as int);
            let nine = self.sub_squares(h);
            let ghost a1 = self.arena();
            let adv = self.advance_nine(nine);
            let ghost a2 = self.arena();
            proof {
                let hh = h as int;
                let sn = pow2((lm1 - 2) as nat);
                let sv = sn as int;
                let dv = pow2((lm1 - 1) as nat) as int;
                vstd::arithmetic::power2::lemma_pow2_unfold(pre[hh].level as nat);
                vstd::arithmetic::power2::lemma_pow2_unfold((pre[hh].level - 1) as nat);
                vstd::arithmetic::power2::lemma_pow2_unfold((lm1 - 1) as nat);
                assert(crate::rule::life_after(cfg, 0) == cfg);
                assert forall|x: int, y: int|
                    0 <= x < 2 * dv && 0 <= y < 2 * dv implies #[trigger] cell_at(
                    a1,
                    nine.0 as int,
                    x,
                    y,
                ) == crate::rule::life_after(cfg, 0)(x + 0, y + 0) by {}
                lemma_rebase_add(a1, nine.0 as int, a2, adv.0 as int, cfg, 0, 0, 0);
                assert forall|x: int, y: int|
                    0 <= x < 2 * dv && 0 <= y < 2 * dv implies #[trigger] cell_at(
                    a1,
                    nine.1 as int,
                    x,
                    y,
                ) == crate::rule::life_after(cfg, 0)(x + dv, y + 0) by {}
                lemma_rebase_add(a1, nine.1 as int, a2, adv.1 as int, cfg, 0, dv, 0);
                assert forall|x: int, y: int|
                    0 <= x < 2 * dv && 0 <= y < 2 * dv implies #[trigger] cell_at(
                    a1,
                    nine.2 as int,
                    x,
                    y,
                ) == crate::rule::life_after(cfg, 0)(x + 2 * dv, y + 0) by {}
                lemma_rebase_add(a1, nine.2 as int, a2, adv.2 as int, cfg, 0, 2 * dv, 0);
                assert forall|x: int, y: int|
                    0 <= x < 2 * dv && 0 <= y < 2 * dv implies #[trigger] cell_at(
                    a1,
                    nine.3 as int,
                    x,
                    y,
                ) == crate::rule::life_after(cfg, 0)(x + 0, y + dv) by {}
                lemma_rebase_add(a1, nine.3 as int, a2, adv.3 as int, cfg, 0, 0, dv);
                assert forall|x: int, y: int|
                    0 <= x < 2 * dv && 0 <= y < 2 * dv implies #[trigger] cell_at(
                    a1,
                    nine.4 as int,
                    x,
                    y,
                ) == crate::rule::life_after(cfg, 0)(x + dv, y + dv) by {}
                lemma_rebase_add(a1, nine.4 as int, a2, adv.4 as int, cfg, 0, dv, dv);
                assert forall|x: int, y: int|
                    0 <= x < 2 * dv && 0 <= y < 2 * dv implies #[trigger] cell_at(
                    a1,
                    nine.5 as int,
                    x,
                    y,
                ) == crate::rule::life_after(cfg, 0)(x + 2 * dv, y + dv) by {}
                lemma_rebase_add(a1, nine.5 as int, a2, adv.5 as int, cfg, 0, 2 * dv, dv);
                assert forall|x: int, y: int|
                    0 <= x < 2 * dv && 0 <= y < 2 * dv implies #[trigger] cell_at(
                    a1,
                    nine.6 as int,
                    x,
                    y,
                ) == crate::rule::life_after(cfg, 0)(x + 0, y + 2 * dv) by {}
                lemma_rebase_add(a1, nine.6 as int, a2, adv.6 as int, cfg, 0, 0, 2 * dv);
                assert forall|x: int, y: int|
                    0 <= x < 2 * dv && 0 <= y < 2 * dv implies #[trigger] cell_at(
                    a1,
                    nine.7 as int,
                    x,
                    y,
                ) == crate::rule::life_after(cfg, 0)(x + dv, y + 2 * dv) by {}
                lemma_rebase_add(a1, nine.7 as int, a2, adv.7 as int, cfg, 0, dv, 2 * dv);
                assert forall|x: int, y: int|
                    0 <= x < 2 * dv && 0 <= y < 2 * dv implies #[trigger] cell_at(
                    a1,
                    nine.8 as int,
                    x,
                    y,
                ) == crate::rule::life_after(cfg, 0)(x + 2 * dv, y + 2 * dv) by {}
                lemma_rebase_add(a1, nine.8 as int, a2, adv.8 as int, cfg, 0, 2 * dv, 2 * dv);
            }
            res = self.advance_quads(lm1, adv, Ghost(cfg));
            proof {
                assert(advanced_ok(pre, h as int, self.arena(), res as int));
            }
        }
        proof {
            let now = self.arena();
            lemma_advanced_ok_frame(old(self).arena(), now, now, now, h as int, res as int);
        }
        self.memo_store(h, res);
        res
    }

    /// Whether all live cells lie in the central quarter of the root.
    fn well_padded(&self) -> (r: bool)
        requires
            self.wf(),
            self.level_spec() >= 3,
        ensures
            r == Self::padded_spec(self.arena(), self.root_spec()),
    {
        proof {
            assert(node_ok(self.arena(), self.root_spec()));
        }
        let n = self.nodes[self.root];
        proof {
            assert(node_ok(self.arena(), n.nw as int));
            assert(node_ok(self.arena(), n.ne as int));
            assert(node_ok(self.arena(), n.sw as int));
            assert(node_ok(self.arena(), n.se as int));
        }
        let nwn = self.nodes[n.nw];
        let nen = self.nodes[n.ne];
        let swn = self.nodes[n.sw];
        let sen = self.nodes[n.se];
        proof {
            assert(node_ok(self.arena(), nwn.se as int));
            assert(node_ok(self.arena(), nen.sw as int));
            assert(node_ok(self.arena(), swn.ne as int));
            assert(node_ok(self.arena(), sen.nw as int));
        }
        let a = self.nodes[nwn.se].se;
        let b = self.nodes[nen.sw].sw;
        let c = self.nodes[swn.ne].ne;
        let d = self.nodes[sen.nw].nw;
        nwn.population == self.nodes[a].population && nen.population == self.nodes[b].population
            && swn.population == self.nodes[c].population && sen.population
            == self.nodes[d].population
    }

    /// Whether the step driver must still grow the universe before it
    /// may advance the root: the root is below level 3, or activity is
    /// not yet confined to the central quarter (growth for padding
    /// stops at level 29, far beyond anything a process can fill).
    fn needs_growth(&self) -> (r: bool)
        requires
            self.wf(),
        ensures
            r == (self.level_spec() < 3 || (self.level_spec() <= 29 && !Self::padded_spec(
                self.arena(),
                self.root_spec(),
            ))),
    {
        let l = self.root_level();
        if l < 3 {
            true
        } else if l > 29 {
            false
        } else {
            !self.well_padded()
        }
    }

    /// Advance the universe by one macro-tick: grow until the root is
    /// padded, advance the root by a quarter of its side length in
    /// generations, and add that quantum to the generation counter.
    /// After the call the root is one level below the padded root, the
    /// quantum equals `2^(root_level() - 1)`, and every readable cell
    /// equals the old universe advanced by that many generations of
    /// the rule.  Cells beyond the result's bounds read dead; the
    /// padding policy keeps activity away from them, though a pattern
    /// expanding at light speed for the whole quantum could in
    /// principle be clipped at the boundary.
    #[verifier::loop_isolation(false)]
    pub fn step(&mut self)
        requires
            old(self).wf(),
            old(self).generation_spec() <= u64::MAX - 0x2000_0000,
        ensures
            final(self).wf(),
            final(self).generation_spec() == old(self).generation_spec() + pow2(
                (final(self).level_spec() - 1) as nat,
            ),
            final(self).generation_spec() > old(self).generation_spec(),
            forall|x: int, y: int|
                -final(self).half_spec() <= x < final(self).half_spec() && -final(self).half_spec() <= y < final(self).half_spec() ==> final(self).cell(x, y)
                    == crate::rule::life_after(
                    universe_config(*old(self)),
                    pow2((final(self).level_spec() - 1) as nat),
                )(x, y),
            old(self).population_spec() == 0 ==> final(self).population_spec() == 0 && (forall|
                a: int,
                b: int,
            | !final(self).cell(a, b)),
    {
        while self.needs_growth()
            invariant
                self.wf(),
                self.generation_spec() == old(self).generation_spec(),
                self.population_spec() == old(self).population_spec(),
                forall|a: int, b: int| self.cell(a, b) == old(self).cell(a, b),
            decreases MAX_LEVEL - self.level_spec(),
        {
            self.expand();
        }
        let ghost mid = *self;
        let l = self.root_level();
        proof {
            if l - 2 < 29 {
                lemma_pow2_strictly_increases((l - 2) as nat, 29);
            }
            lemma2_to64();
        }
        let q = pow2_u64(l - 2);
        let rt = self.root;
        let r = self.next_generation(rt);
        self.root = r;
        self.generation = self.generation + q;
        proof {
            let u0 = universe_config(*old(self));
            let um = universe_config(mid);
            let qn = pow2((mid.level_spec() - 2) as nat);
            let qv = qn as int;
            let hv = mid.half_spec();
            let cfg = node_config(mid.arena(), mid.root_spec());
            vstd::arithmetic::power2::lemma_pow2_unfold(mid.level_spec() as nat);
            vstd::arithmetic::power2::lemma_pow2_unfold((mid.level_spec() - 1) as nat);
            assert forall|px: int, py: int| #[trigger] cfg(px, py) == crate::rule::shifted(
                um,
                -hv,
                -hv,
            )(px, py) by {
                assert(um(px - hv, py - hv) == mid.cell(px - hv, py - hv));
            }
            assert forall|a2: int, b2: int| #[trigger] um(a2, b2) == u0(a2, b2) by {}
            assert forall|x: int, y: int|
                -qv <= x < qv && -qv <= y < qv implies #[trigger] self.cell(x, y)
                == crate::rule::life_after(u0, qn)(x, y) by {
                assert(self.cell(x, y) == cell_at(self.arena(), self.root_spec(), x + qv, y
                    + qv));
                assert(cell_at(self.arena(), self.root_spec(), x + qv, y + qv)
                    == crate::rule::life_after(cfg, qn)((x + qv) + qv, (y + qv) + qv));
                crate::rule::lemma_life_after_local(
                    cfg,
                    crate::rule::shifted(um, -hv, -hv),
                    qn,
                    x + 2 * qv,
                    y + 2 * qv,
                );
                crate::rule::lemma_life_after_shift(um, -hv, -hv, qn, x + 2 * qv, y + 2 * qv);
                crate::rule::lemma_life_after_ext(um, u0, qn, x, y);
            }
            if old(self).population_spec() == 0 {
                assert forall|a: int, b: int| !self.cell(a, b) by {
                    if self.cell(a, b) {
                        lemma_empty_node_cells(self.arena(), self.root_spec(), a
                            + self.half_spec(), b + self.half_spec());
                    }
                }
            }
        }
    }

    /// Reset to the empty universe of minimal extent at generation
    /// zero, discarding the canonical table and every memoized result.
    pub fn clear(&mut self)
        ensures
            final(self).wf(),
            final(self).generation_spec() == 0,
            final(self).level_spec() == 2,
            final(self).population_spec() == 0,
            forall|x: int, y: int| !final(self).cell(x, y),
    {
        *self = HashLifeUniverse::new();
    }

    /// Number of generations advanced so far.
    pub fn generation(&self) -> (r: u64)
        ensures
            r == self.generation_spec(),
    {
        self.generation
    }

    /// Number of live cells, read off the root in constant time.
    pub fn population(&self) -> (r: u64)
        requires
            self.wf(),
        ensures
            r == self.population_spec(),
    {
        let n = self.nodes[self.root];
        n.population
    }

    /// Level of the root node; the universe is a square of side
    /// `2^root_level()` centered on the origin.
    pub fn root_level(&self) -> (r: u32)
        requires
            self.wf(),
        ensures
            r == self.level_spec(),
    {
        let n = self.nodes[self.root];
        n.level
    }

    /// Number of canonical nodes materialized so far (the leaf
    /// singletons included).  Interning never stores a duplicate, so
    /// re-creating an existing pattern leaves this count unchanged.
    pub fn node_count(&self) -> (r: usize)
        ensures
            r == self.arena().len(),
    {
        self.nodes.len()
    }

    /// Walk from the root to the level-`level` node whose aligned
    /// block contains local coordinates `(x, y)`.
    fn subtree_rec(&self, h: usize, x: u64, y: u64, level: u32) -> (r: usize)
        requires
            arena_ok(self.arena()),
            (h as int) < self.arena().len(),
            level <= self.arena()[h as int].level,
        ensures
            r as int == subnode_at(self.arena(), h as int, x as int, y as int, level as int),
            (r as int) < self.arena().len(),
            self.arena()[r as int].level == level,
        decreases self.arena()[h as int].level,
    {
        let n = self.nodes[h];
        if n.level == level {
            h
        } else {
            proof {
                assert(node_ok(self.arena(), h as int));
            }
            let half = pow2_u64(n.level - 1);
            if x < half {
                if y < half {
                    self.subtree_rec(n.nw, x, y, level)
                } else {
                    self.subtree_rec(n.sw, x, y - half, level)
                }
            } else {
                if y < half {
                    self.subtree_rec(n.ne, x - half, y, level)
                } else {
                    self.subtree_rec(n.se, x - half, y - half, level)
                }
            }
        }
    }

    /// Handle of the canonical level-`level` node whose aligned block
    /// contains the absolute coordinates `(x, y)`.  Because the table
    /// is canonical, two calls return the same handle exactly when the
    /// two blocks hold the same pattern, which makes the structural
    /// sharing of the tree observable.
    pub fn subtree(&self, x: i32, y: i32, level: u32) -> (r: usize)
        requires
            self.wf(),
            level <= self.level_spec(),
            -self.half_spec() <= (x as int) < self.half_spec(),
            -self.half_spec() <= (y as int) < self.half_spec(),
        ensures
            r as int == subnode_at(
                self.arena(),
                self.root_spec(),
                x as int + self.half_spec(),
                y as int + self.half_spec(),
                level as int,
            ),
            (r as int) < self.arena().len(),
            self.arena()[r as int].level == level,
    {
        let rl = self.root_level();
        proof {
            lemma_pow2_strictly_increases((rl - 1) as nat, 62);
            lemma2_to64();
            vstd::arithmetic::power2::lemma2_to64_rest();
        }
        let half = pow2_u64(rl - 1) as i64;
        self.subtree_rec(self.root, (x as i64 + half) as u64, (y as i64 + half) as u64, level)
    }
}

} // verus!
