use vstd::prelude::*;
use vstd::pervasive::VecAdditionalExecFns;
use vstd::arithmetic::div_mod::{
    lemma_fundamental_div_mod, lemma_fundamental_div_mod_converse_div,
    lemma_fundamental_div_mod_converse_mod,
};
use std::collections::VecDeque;

use crate::color::Color;
use crate::rng::choose_color;

verus! {

/// A rectangular board of colored cells, stored row-major: the cell at
/// row `i`, column `j` sits at flat index `i * num_cols + j`.
pub struct Grid {
    elements: Vec<Color>,
    num_rows: usize,
    num_cols: usize,
}

/// `c` is a (row, column) coordinate inside a `rows` by `cols` board.
pub open spec fn in_bounds(rows: nat, cols: nat, c: (int, int)) -> bool {
    0 <= c.0 < rows && 0 <= c.1 < cols
}

/// The flat, row-major index of coordinate `c`.
pub open spec fn flat(cols: nat, c: (int, int)) -> int {
    c.0 * cols + c.1
}

/// The color that the cell sequence `g` holds at coordinate `c`.
pub open spec fn cell(g: Seq<Color>, cols: nat, c: (int, int)) -> Color {
    g[flat(cols, c)]
}

/// `a` and `b` are 4-connected neighbors: they differ by one in exactly one
/// coordinate.
pub open spec fn adjacent(a: (int, int), b: (int, int)) -> bool {
    ||| a.0 == b.0 && (b.1 == a.1 + 1 || b.1 == a.1 - 1)
    ||| a.1 == b.1 && (b.0 == a.0 + 1 || b.0 == a.0 - 1)
}

/// `p` is a walk over in-bounds cells that all hold color `e0`, starting at
/// the anchor (0, 0) and stepping to a 4-connected neighbor each time.
pub open spec fn is_region_path(
    g: Seq<Color>,
    rows: nat,
    cols: nat,
    e0: Color,
    p: Seq<(int, int)>,
) -> bool {
    &&& p.len() > 0
    &&& p[0] == (0int, 0int)
    &&& forall|k: int|
        0 <= k < p.len() ==> in_bounds(rows, cols, #[trigger] p[k]) && cell(g, cols, p[k]) == e0
    &&& forall|k: int| 1 <= k < p.len() ==> adjacent(p[k - 1], #[trigger] p[k])
}

/// `c` belongs to the anchor's region: the 4-connected component of cells of
/// color `e0` that contains the anchor (0, 0).
#[verifier::opaque]
pub open spec fn anchor_reaches(
    g: Seq<Color>,
    rows: nat,
    cols: nat,
    e0: Color,
    c: (int, int),
) -> bool {
    exists|p: Seq<(int, int)>| is_region_path(g, rows, cols, e0, p) && p.last() == c
}

/// The cell sequence after flood-filling the anchor's region to `target`:
/// unchanged when `target` already is the anchor's color, and otherwise
/// `target` exactly on the region and untouched elsewhere.
pub open spec fn expand_spec(g: Seq<Color>, rows: nat, cols: nat, target: Color) -> Seq<Color> {
    if g.len() == 0 || target == g[0] {
        g
    } else {
        Seq::new(
            g.len(),
            |k: int|
                if anchor_reaches(g, rows, cols, g[0], (k / cols as int, k % cols as int)) {
                    target
                } else {
                    g[k]
                },
        )
    }
}

/// A coordinate inside the board maps to a flat index inside the cell
/// sequence.
pub proof fn lemma_flat_in_range(rows: int, cols: int, i: int, j: int)
    requires
        0 <= i < rows,
        0 <= j < cols,
    ensures
        0 <= i * cols + j < rows * cols,
    {
    assert(0 <= i * cols + j < rows * cols) by (nonlinear_arith)
        requires
            0 <= i < rows,
            0 <= j < cols,
    ;
}

/// Splitting a flat index `k` of an in-bounds cell back into its row `k / cols`
/// and column `k % cols` lands inside the board, and re-flattening gives `k`.
pub proof fn lemma_unflat(rows: int, cols: int, k: int)
    requires
        1 <= rows,
        1 <= cols,
        0 <= k < rows * cols,
    ensures
        0 <= k / cols < rows,
        0 <= k % cols < cols,
        (k / cols) * cols + k % cols == k,
    {
    lemma_fundamental_div_mod(k, cols);
    assert(k == cols * (k / cols) + (k % cols));
    assert(0 <= k % cols < cols);
    assert((k / cols) * cols + k % cols == k) by (nonlinear_arith)
        requires
            k == cols * (k / cols) + (k % cols),
    ;
    assert(k / cols < rows) by (nonlinear_arith)
        requires
            1 <= cols,
            0 <= k < rows * cols,
            (k / cols) * cols + k % cols == k,
            0 <= k % cols < cols,
    ;
}

/// Flattening an in-bounds coordinate and splitting the result give the
/// coordinate back.
pub proof fn lemma_flat_unflat(cols: int, i: int, j: int)
    requires
        1 <= cols,
        0 <= i,
        0 <= j < cols,
    ensures
        (i * cols + j) / cols == i,
        (i * cols + j) % cols == j,
    {
    lemma_fundamental_div_mod_converse_div(i * cols + j, cols, i, j);
    lemma_fundamental_div_mod_converse_mod(i * cols + j, cols, i, j);
}

/// Distinct in-bounds coordinates have distinct flat indices.
pub proof fn lemma_flat_injective(cols: nat, a: (int, int), b: (int, int))
    requires
        cols >= 1,
        0 <= a.0,
        0 <= a.1 < cols,
        0 <= b.0,
        0 <= b.1 < cols,
        flat(cols, a) == flat(cols, b),
    ensures
        a == b,
    {
    lemma_flat_unflat(cols as int, a.0, a.1);
    lemma_flat_unflat(cols as int, b.0, b.1);
}

/// The anchor belongs to its own region whenever it holds the region color.
pub proof fn lemma_anchor_reaches_self(g: Seq<Color>, rows: nat, cols: nat, e0: Color)
    requires
        rows >= 1,
        cols >= 1,
        cell(g, cols, (0int, 0int)) == e0,
    ensures
        anchor_reaches(g, rows, cols, e0, (0int, 0int)),
    {
    reveal(anchor_reaches);
    let p: Seq<(int, int)> = seq![(0int, 0int)];
    assert(p.last() == (0int, 0int));
    assert(is_region_path(g, rows, cols, e0, p));
}

/// A region extends over any 4-connected step onto an in-bounds cell of the
/// region color.
pub proof fn lemma_reach_step(
    g: Seq<Color>,
    rows: nat,
    cols: nat,
    e0: Color,
    d: (int, int),
    n: (int, int),
)
    requires
        anchor_reaches(g, rows, cols, e0, d),
        adjacent(d, n),
        in_bounds(rows, cols, n),
        cell(g, cols, n) == e0,
    ensures
        anchor_reaches(g, rows, cols, e0, n),
    {
    reveal(anchor_reaches);
    let p = choose|p: Seq<(int, int)>| is_region_path(g, rows, cols, e0, p) && p.last() == d;
    let p2 = p.push(n);
    assert(p2.last() == n);
    assert(p2[0] == p[0]);
    assert forall|k: int|
        0 <= k < p2.len() implies in_bounds(rows, cols, #[trigger] p2[k]) && cell(g, cols, p2[k])
        == e0 by {
        if k < p.len() {
            assert(p2[k] == p[k]);
        } else {
            assert(p2[k] == n);
        }
    }
    assert forall|k: int| 1 <= k < p2.len() implies adjacent(p2[k - 1], #[trigger] p2[k]) by {
        if k < p.len() {
            assert(p2[k - 1] == p[k - 1]);
            assert(p2[k] == p[k]);
        } else {
            assert(p2[k - 1] == p[p.len() - 1]);
            assert(p2[k] == n);
        }
    }
    assert(is_region_path(g, rows, cols, e0, p2));
}

/// In a set that contains the anchor and is closed under 4-connected steps
/// onto in-bounds cells of the region color, every region path ends inside
/// the set.
proof fn lemma_closed_covers_path(
    g: Seq<Color>,
    rows: nat,
    cols: nat,
    e0: Color,
    s: Set<(int, int)>,
    p: Seq<(int, int)>,
)
    requires
        is_region_path(g, rows, cols, e0, p),
        s.contains((0int, 0int)),
        forall|c: (int, int), n: (int, int)|
            #![trigger s.contains(c), adjacent(c, n)]
            s.contains(c) && adjacent(c, n) && in_bounds(rows, cols, n) && cell(g, cols, n) == e0
                ==> s.contains(n),
    ensures
        s.contains(p.last()),
    decreases p.len(),
{
    if p.len() == 1 {
        assert(p.last() == p[0]);
    } else {
        let q = p.drop_last();
        assert(q[0] == p[0]);
        assert forall|k: int|
            0 <= k < q.len() implies in_bounds(rows, cols, #[trigger] q[k]) && cell(g, cols, q[k])
            == e0 by {
            assert(q[k] == p[k]);
        }
        assert forall|k: int| 1 <= k < q.len() implies adjacent(q[k - 1], #[trigger] q[k]) by {
            assert(q[k - 1] == p[k - 1]);
            assert(q[k] == p[k]);
        }
        assert(is_region_path(g, rows, cols, e0, q));
        lemma_closed_covers_path(g, rows, cols, e0, s, q);
        assert(q.last() == p[p.len() - 2]);
        assert(adjacent(p[p.len() - 2], p[p.len() - 1]));
        assert(in_bounds(rows, cols, p[p.len() - 1]) && cell(g, cols, p[p.len() - 1]) == e0);
    }
}

/// The (row, column) reading of a queue entry.
spec fn qc(c: (usize, usize)) -> (int, int) {
    (c.0 as int, c.1 as int)
}

/// The worklist holds an entry for coordinate `c`.
spec fn queue_has(q: Seq<(usize, usize)>, c: (int, int)) -> bool {
    exists|t: int| 0 <= t < q.len() && qc(#[trigger] q[t]) == c
}

/// Appending an entry keeps every queued coordinate and queues the new one.
proof fn lemma_queue_has_push(q: Seq<(usize, usize)>, v: (usize, usize))
    ensures
        queue_has(q.push(v), qc(v)),
        forall|c: (int, int)| #[trigger] queue_has(q, c) ==> queue_has(q.push(v), c),
{
    let q2 = q.push(v);
    assert(qc(q2[q.len() as int]) == qc(v));
    assert forall|c: (int, int)| #[trigger] queue_has(q, c) implies queue_has(q2, c) by {
        let t = choose|t: int| 0 <= t < q.len() && qc(q[t]) == c;
        assert(qc(q2[t]) == c);
    }
}

/// Popping the head keeps every other queued coordinate.
proof fn lemma_queue_has_pop(q: Seq<(usize, usize)>, c: (int, int))
    requires
        queue_has(q, c),
        q.len() >= 1,
        qc(q[0]) != c,
    ensures
        queue_has(q.subrange(1, q.len() as int), c),
{
    let t = choose|t: int| 0 <= t < q.len() && qc(q[t]) == c;
    assert(t != 0);
    assert(qc(q.subrange(1, q.len() as int)[t - 1]) == c);
}

/// A coordinate queued after an append was queued before, or is the one
/// appended.
proof fn lemma_queue_has_push_rev(q: Seq<(usize, usize)>, v: (usize, usize))
    ensures
        forall|c: (int, int)| #[trigger]
            queue_has(q.push(v), c) ==> queue_has(q, c) || c == qc(v),
{
    assert forall|c: (int, int)| #[trigger]
        queue_has(q.push(v), c) implies queue_has(q, c) || c == qc(v) by {
        let t = choose|t: int| 0 <= t < q.push(v).len() && qc(q.push(v)[t]) == c;
        if t < q.len() {
            assert(qc(q[t]) == c);
        }
    }
}

/// A coordinate queued after the head was popped was queued before.
proof fn lemma_queue_has_pop_rev(q: Seq<(usize, usize)>)
    requires
        q.len() >= 1,
    ensures
        forall|c: (int, int)| #[trigger]
            queue_has(q.subrange(1, q.len() as int), c) ==> queue_has(q, c),
{
    let qt = q.subrange(1, q.len() as int);
    assert forall|c: (int, int)| #[trigger] queue_has(qt, c) implies queue_has(q, c) by {
        let t = choose|t: int| 0 <= t < qt.len() && qc(qt[t]) == c;
        assert(qc(q[t + 1]) == c);
    }
}

/// The anchor's coordinate flattens to index 0.
proof fn lemma_flat_anchor(cols: nat)
    ensures
        flat(cols, (0int, 0int)) == 0,
{
    assert(0int * cols + 0 == 0) by (nonlinear_arith);
}

/// Expanding toward the color the anchor already holds is a strict no-op:
/// the grid comes back exactly as it was.
pub proof fn lemma_expand_noop(g: Seq<Color>, rows: nat, cols: nat, target: Color)
    requires
        target == g[0],
    ensures
        expand_spec(g, rows, cols, target) == g,
{
}

/// Expanding is idempotent: once one expansion toward `target` has run, a
/// second expansion toward the same `target` changes nothing.
pub proof fn lemma_expand_idempotent(g: Seq<Color>, rows: nat, cols: nat, target: Color)
    requires
        rows >= 1,
        cols >= 1,
        g.len() == rows * cols,
    ensures
        expand_spec(expand_spec(g, rows, cols, target), rows, cols, target) == expand_spec(
            g,
            rows,
            cols,
            target,
        ),
{
    assert(g.len() >= 1) by (nonlinear_arith)
        requires
            rows >= 1,
            cols >= 1,
            g.len() == rows * cols,
    ;
    if target != g[0] {
        let e0 = g[0];
        let ge = expand_spec(g, rows, cols, target);
        assert(ge.len() == g.len());
        lemma_flat_anchor(cols);
        assert(cell(g, cols, (0int, 0int)) == e0);
        lemma_anchor_reaches_self(g, rows, cols, e0);
        lemma_flat_unflat(cols as int, 0, 0);
        assert((0int * cols + 0) / cols as int == 0 && (0int * cols + 0) % cols as int == 0)
            by (nonlinear_arith)
            requires
                cols >= 1,
                (0int * cols + 0) / cols as int == 0,
                (0int * cols + 0) % cols as int == 0,
        ;
        assert(0int / cols as int == 0 && 0int % cols as int == 0) by (nonlinear_arith)
            requires
                cols >= 1,
        ;
        assert(ge[0] == target);
        assert(expand_spec(ge, rows, cols, target) == ge);
    }
}

/// After an expansion toward a color the anchor does not yet hold, the
/// anchor's whole region reads `target`, and every cell outside the region
/// keeps the color it had.
pub proof fn lemma_expand_region(
    g: Seq<Color>,
    rows: nat,
    cols: nat,
    target: Color,
    c: (int, int),
)
    requires
        rows >= 1,
        cols >= 1,
        g.len() == rows * cols,
        target != g[0],
        in_bounds(rows, cols, c),
    ensures
        anchor_reaches(g, rows, cols, g[0], c) ==> cell(
            expand_spec(g, rows, cols, target),
            cols,
            c,
        ) == target,
        !anchor_reaches(g, rows, cols, g[0], c) ==> cell(
            expand_spec(g, rows, cols, target),
            cols,
            c,
        ) == cell(g, cols, c),
{
    assert(g.len() >= 1) by (nonlinear_arith)
        requires
            rows >= 1,
            cols >= 1,
            g.len() == rows * cols,
    ;
    lemma_flat_in_range(rows as int, cols as int, c.0, c.1);
    lemma_flat_unflat(cols as int, c.0, c.1);
    let k = flat(cols, c);
    assert(c == (c.0, c.1));
    assert((k / cols as int, k % cols as int) == c);
    let ge = expand_spec(g, rows, cols, target);
    assert(cell(ge, cols, c) == ge[k]);
}

/// `q_end` grew out of `q_mid` by appending in-bounds neighbors of `c` only.
spec fn queue_extends(
    q_mid: Seq<(usize, usize)>,
    q_end: Seq<(usize, usize)>,
    c: (int, int),
    rows: nat,
    cols: nat,
) -> bool {
    &&& forall|cq: (int, int)| #[trigger]
        queue_has(q_end, cq) ==> queue_has(q_mid, cq) || (adjacent(c, cq) && in_bounds(
            rows,
            cols,
            cq,
        ))
    &&& forall|cq: (int, int)| #[trigger] queue_has(q_mid, cq) ==> queue_has(q_end, cq)
}

/// Appending one more in-bounds neighbor of `c` keeps the growth shape.
proof fn lemma_extend_push(
    q_mid: Seq<(usize, usize)>,
    q1: Seq<(usize, usize)>,
    v: (usize, usize),
    c: (int, int),
    rows: nat,
    cols: nat,
)
    requires
        queue_extends(q_mid, q1, c, rows, cols),
        adjacent(c, qc(v)),
        in_bounds(rows, cols, qc(v)),
    ensures
        queue_extends(q_mid, q1.push(v), c, rows, cols),
        queue_has(q1.push(v), qc(v)),
        forall|cq: (int, int)| #[trigger] queue_has(q1, cq) ==> queue_has(q1.push(v), cq),
{
    lemma_queue_has_push(q1, v);
    lemma_queue_has_push_rev(q1, v);
}

/// When every direction that stays on the board is queued, every in-bounds
/// neighbor of `c` is queued.
proof fn lemma_neighbors_queued(rows: nat, cols: nat, c: (int, int), q: Seq<(usize, usize)>)
    requires
        in_bounds(rows, cols, c),
        c.0 >= 1 ==> queue_has(q, (c.0 - 1, c.1)),
        c.0 + 1 < rows ==> queue_has(q, (c.0 + 1, c.1)),
        c.1 >= 1 ==> queue_has(q, (c.0, c.1 - 1)),
        c.1 + 1 < cols ==> queue_has(q, (c.0, c.1 + 1)),
    ensures
        forall|nb: (int, int)|
            #[trigger] adjacent(c, nb) && in_bounds(rows, cols, nb) ==> queue_has(q, nb),
{
    assert forall|nb: (int, int)|
        #[trigger] adjacent(c, nb) && in_bounds(rows, cols, nb) implies queue_has(q, nb) by {
        if nb.0 == c.0 - 1 && nb.1 == c.1 {
            assert(queue_has(q, (c.0 - 1, c.1)));
        } else if nb.0 == c.0 + 1 && nb.1 == c.1 {
            assert(queue_has(q, (c.0 + 1, c.1)));
        } else if nb.0 == c.0 && nb.1 == c.1 - 1 {
            assert(queue_has(q, (c.0, c.1 - 1)));
        } else {
            assert(nb.0 == c.0 && nb.1 == c.1 + 1);
            assert(queue_has(q, (c.0, c.1 + 1)));
        }
    }
}

/// After converting the popped coordinate `c` and queueing its in-bounds
/// neighbors, the worklist invariants hold again.
proof fn lemma_worklist_after_convert(
    g0: Seq<Color>,
    rows: nat,
    cols: nat,
    e0: Color,
    done_before: Set<(int, int)>,
    done: Set<(int, int)>,
    c: (int, int),
    q_before: Seq<(usize, usize)>,
    q_end: Seq<(usize, usize)>,
)
    requires
        q_before.len() >= 1,
        qc(q_before[0]) == c,
        done == done_before.insert(c),
        in_bounds(rows, cols, c),
        forall|cq: (int, int)| #[trigger]
            queue_has(q_before, cq) ==> in_bounds(rows, cols, cq) && (cq == (0int, 0int)
                || exists|d: (int, int)| done_before.contains(d) && adjacent(d, cq)),
        forall|a: (int, int), nb: (int, int)|
            #![trigger done_before.contains(a), adjacent(a, nb)]
            done_before.contains(a) && adjacent(a, nb) && in_bounds(rows, cols, nb) && cell(
                g0,
                cols,
                nb,
            ) == e0 ==> done_before.contains(nb) || queue_has(q_before, nb),
        done_before.contains((0int, 0int)) || queue_has(q_before, (0int, 0int)),
        queue_extends(q_before.subrange(1, q_before.len() as int), q_end, c, rows, cols),
        forall|nb: (int, int)|
            #[trigger] adjacent(c, nb) && in_bounds(rows, cols, nb) ==> queue_has(q_end, nb),
    ensures
        forall|cq: (int, int)| #[trigger]
            queue_has(q_end, cq) ==> in_bounds(rows, cols, cq) && (cq == (0int, 0int) || exists|
                d: (int, int),
            |
                done.contains(d) && adjacent(d, cq)),
        forall|a: (int, int), nb: (int, int)|
            #![trigger done.contains(a), adjacent(a, nb)]
            done.contains(a) && adjacent(a, nb) && in_bounds(rows, cols, nb) && cell(g0, cols, nb)
                == e0 ==> done.contains(nb) || queue_has(q_end, nb),
        done.contains((0int, 0int)) || queue_has(q_end, (0int, 0int)),
{
    let q_tail = q_before.subrange(1, q_before.len() as int);
    lemma_queue_has_pop_rev(q_before);
    assert forall|cq: (int, int)| #[trigger]
        queue_has(q_end, cq) implies in_bounds(rows, cols, cq) && (cq == (0int, 0int) || exists|
        d: (int, int),
    |
        done.contains(d) && adjacent(d, cq)) by {
        if queue_has(q_tail, cq) {
            assert(queue_has(q_before, cq));
            if cq != (0int, 0int) {
                let d = choose|d: (int, int)| done_before.contains(d) && adjacent(d, cq);
                assert(done.contains(d) && adjacent(d, cq));
            }
        } else {
            assert(adjacent(c, cq) && in_bounds(rows, cols, cq));
            assert(done.contains(c) && adjacent(c, cq));
        }
    }
    assert forall|a: (int, int), nb: (int, int)|
        #![trigger done.contains(a), adjacent(a, nb)]
        done.contains(a) && adjacent(a, nb) && in_bounds(rows, cols, nb) && cell(g0, cols, nb)
            == e0 implies done.contains(nb) || queue_has(q_end, nb) by {
        if a == c {
            assert(adjacent(c, nb) && in_bounds(rows, cols, nb));
            assert(queue_has(q_end, nb));
        } else {
            assert(done_before.contains(a));
            if !done.contains(nb) {
                assert(!done_before.contains(nb));
                assert(queue_has(q_before, nb));
                if qc(q_before[0]) == nb {
                    assert(nb == c);
                    assert(done.contains(c));
                } else {
                    lemma_queue_has_pop(q_before, nb);
                    assert(queue_has(q_tail, nb));
                    assert(queue_has(q_end, nb));
                }
            }
        }
    }
    if !done.contains((0int, 0int)) {
        assert(c != (0int, 0int));
        assert(queue_has(q_before, (0int, 0int)));
        lemma_queue_has_pop(q_before, (0int, 0int));
        assert(queue_has(q_tail, (0int, 0int)));
        assert(queue_has(q_end, (0int, 0int)));
    }
}

/// After popping a coordinate that needed no conversion, the worklist
/// invariants hold again.
proof fn lemma_worklist_after_skip(
    g0: Seq<Color>,
    rows: nat,
    cols: nat,
    e0: Color,
    done: Set<(int, int)>,
    c: (int, int),
    q_before: Seq<(usize, usize)>,
    q_end: Seq<(usize, usize)>,
)
    requires
        g0.len() >= 1,
        cols >= 1,
        e0 == g0[0],
        q_before.len() >= 1,
        qc(q_before[0]) == c,
        q_end == q_before.subrange(1, q_before.len() as int),
        done.contains(c) || cell(g0, cols, c) != e0,
        forall|cq: (int, int)| #[trigger]
            queue_has(q_before, cq) ==> in_bounds(rows, cols, cq) && (cq == (0int, 0int)
                || exists|d: (int, int)| done.contains(d) && adjacent(d, cq)),
        forall|a: (int, int), nb: (int, int)|
            #![trigger done.contains(a), adjacent(a, nb)]
            done.contains(a) && adjacent(a, nb) && in_bounds(rows, cols, nb) && cell(
                g0,
                cols,
                nb,
            ) == e0 ==> done.contains(nb) || queue_has(q_before, nb),
        done.contains((0int, 0int)) || queue_has(q_before, (0int, 0int)),
    ensures
        forall|cq: (int, int)| #[trigger]
            queue_has(q_end, cq) ==> in_bounds(rows, cols, cq) && (cq == (0int, 0int) || exists|
                d: (int, int),
            |
                done.contains(d) && adjacent(d, cq)),
        forall|a: (int, int), nb: (int, int)|
            #![trigger done.contains(a), adjacent(a, nb)]
            done.contains(a) && adjacent(a, nb) && in_bounds(rows, cols, nb) && cell(g0, cols, nb)
                == e0 ==> done.contains(nb) || queue_has(q_end, nb),
        done.contains((0int, 0int)) || queue_has(q_end, (0int, 0int)),
{
    lemma_queue_has_pop_rev(q_before);
    assert forall|a: (int, int), nb: (int, int)|
        #![trigger done.contains(a), adjacent(a, nb)]
        done.contains(a) && adjacent(a, nb) && in_bounds(rows, cols, nb) && cell(g0, cols, nb)
            == e0 implies done.contains(nb) || queue_has(q_end, nb) by {
        if !done.contains(nb) {
            assert(queue_has(q_before, nb));
            if qc(q_before[0]) == nb {
                assert(nb == c);
                assert(cell(g0, cols, nb) == e0);
                assert(false);
            }
            lemma_queue_has_pop(q_before, nb);
        }
    }
    if !done.contains((0int, 0int)) {
        assert(queue_has(q_before, (0int, 0int)));
        if qc(q_before[0]) == (0int, 0int) {
            assert(c == (0int, 0int));
            assert(c.0 * cols + c.1 == 0) by (nonlinear_arith)
                requires
                    c.0 == 0,
                    c.1 == 0,
            ;
            assert(cell(g0, cols, c) == g0[0]);
            assert(false);
        }
        lemma_queue_has_pop(q_before, (0int, 0int));
    }
}

/// After overwriting the converted cell, every coordinate reads `target`
/// when converted and its original color otherwise.
proof fn lemma_frame_after_set(
    g0: Seq<Color>,
    rows: nat,
    cols: nat,
    e0: Color,
    target: Color,
    cells_before: Seq<Color>,
    cells_after: Seq<Color>,
    done_before: Set<(int, int)>,
    done: Set<(int, int)>,
    c: (int, int),
)
    requires
        rows >= 1,
        cols >= 1,
        in_bounds(rows, cols, c),
        cells_before.len() == rows * cols,
        0 <= flat(cols, c) < cells_before.len(),
        cells_after == cells_before.update(flat(cols, c), target),
        done == done_before.insert(c),
        forall|cp: (int, int)|
            in_bounds(rows, cols, cp) ==> #[trigger] cell(cells_before, cols, cp) == (
            if done_before.contains(cp) {
                target
            } else {
                cell(g0, cols, cp)
            }),
    ensures
        forall|cp: (int, int)|
            in_bounds(rows, cols, cp) ==> #[trigger] cell(cells_after, cols, cp) == (
            if done.contains(cp) {
                target
            } else {
                cell(g0, cols, cp)
            }),
{
    assert forall|cp: (int, int)|
        in_bounds(rows, cols, cp) implies #[trigger] cell(cells_after, cols, cp) == (
    if done.contains(cp) {
        target
    } else {
        cell(g0, cols, cp)
    }) by {
        lemma_flat_in_range(rows as int, cols as int, cp.0, cp.1);
        if cp == c {
            assert(cell(cells_after, cols, cp) == target);
        } else {
            if flat(cols, cp) == flat(cols, c) {
                lemma_flat_injective(cols, cp, c);
            }
            assert(flat(cols, cp) != flat(cols, c));
            assert(cell(cells_after, cols, cp) == cell(cells_before, cols, cp));
        }
    }
}

/// When the worklist has drained, the converted set is exactly the anchor's
/// region.
proof fn lemma_region_is_done(
    g0: Seq<Color>,
    rows: nat,
    cols: nat,
    e0: Color,
    done: Set<(int, int)>,
)
    requires
        done.contains((0int, 0int)),
        forall|c: (int, int)| #[trigger]
            done.contains(c) ==> in_bounds(rows, cols, c) && cell(g0, cols, c) == e0
                && anchor_reaches(g0, rows, cols, e0, c),
        forall|a: (int, int), nb: (int, int)|
            #![trigger done.contains(a), adjacent(a, nb)]
            done.contains(a) && adjacent(a, nb) && in_bounds(rows, cols, nb) && cell(
                g0,
                cols,
                nb,
            ) == e0 ==> done.contains(nb),
    ensures
        forall|cp: (int, int)|
            in_bounds(rows, cols, cp) ==> (#[trigger] anchor_reaches(g0, rows, cols, e0, cp)
                <==> done.contains(cp)),
{
    assert forall|cp: (int, int)|
        in_bounds(rows, cols, cp) implies (#[trigger] anchor_reaches(g0, rows, cols, e0, cp)
        <==> done.contains(cp)) by {
        if anchor_reaches(g0, rows, cols, e0, cp) {
            reveal(anchor_reaches);
            let p = choose|p: Seq<(int, int)>|
                is_region_path(g0, rows, cols, e0, p) && p.last() == cp;
            lemma_closed_covers_path(g0, rows, cols, e0, done, p);
        }
    }
}

/// How many cells of `g` hold color `c`; the flood fill's termination
/// measure.
spec fn count_eq(g: Seq<Color>, c: Color) -> nat
    decreases g.len(),
{
    if g.len() == 0 {
        0
    } else {
        count_eq(g.drop_last(), c) + if g.last() == c {
            1nat
        } else {
            0nat
        }
    }
}

/// Overwriting one cell moves the count by the difference at that cell.
proof fn lemma_count_eq_update(g: Seq<Color>, i: int, v: Color, c: Color)
    requires
        0 <= i < g.len(),
    ensures
        count_eq(g.update(i, v), c) as int == count_eq(g, c) as int + (if v == c {
            1int
        } else {
            0int
        }) - (if g[i] == c {
            1int
        } else {
            0int
        }),
    decreases g.len(),
{
    let gu = g.update(i, v);
    assert(gu.len() == g.len());
    if i == g.len() - 1 {
        assert(gu.drop_last() =~= g.drop_last());
        assert(gu.last() == v);
    } else {
        assert(gu.drop_last() =~= g.drop_last().update(i, v));
        lemma_count_eq_update(g.drop_last(), i, v, c);
        assert(gu.last() == g.last());
    }
}

impl Grid {
    /// The cells, as a flat row-major sequence.
    pub closed spec fn cells(self) -> Seq<Color> {
        self.elements@
    }

    /// The number of rows.
    pub closed spec fn rows(self) -> nat {
        self.num_rows as nat
    }

    /// The number of columns.
    pub closed spec fn cols(self) -> nat {
        self.num_cols as nat
    }

    /// A well-formed grid has at least one row and one column, and one stored
    /// cell per coordinate.
    pub open spec fn wf(self) -> bool {
        &&& self.rows() >= 1
        &&& self.cols() >= 1
        &&& self.cells().len() == self.rows() * self.cols()
    }

    /// The anchor cell's current color: the color the next `expand` replaces.
    pub open spec fn anchor_color(self) -> Color
        recommends
            self.wf(),
    {
        self.cells()[0]
    }

    /// Every cell holds the anchor's color.
    pub open spec fn spec_uniform(self) -> bool {
        forall|k: int| 0 <= k < self.cells().len() ==> #[trigger] self.cells()[k] == self.cells()[0]
    }

    /// A well-formed grid holds at least one cell.
    pub proof fn lemma_nonempty(self)
        requires
            self.wf(),
        ensures
            self.cells().len() >= 1,
        {
        assert(self.rows() * self.cols() >= 1) by (nonlinear_arith)
            requires
                self.rows() >= 1,
                self.cols() >= 1,
        ;
    }

    /// The number of rows.
    pub fn num_rows(&self) -> (r: usize)
        ensures
            r == self.rows(),
    {
        self.num_rows
    }

    /// The number of columns.
    pub fn num_cols(&self) -> (r: usize)
        ensures
            r == self.cols(),
    {
        self.num_cols
    }

    /// Reads the cell at row `i`, column `j`.
    pub fn get(&self, i: usize, j: usize) -> (r: Color)
        requires
            self.wf(),
            i < self.rows(),
            j < self.cols(),
        ensures
            r == cell(self.cells(), self.cols(), (i as int, j as int)),
    {
        let n = self.elements.len();
        proof {
            lemma_flat_in_range(self.rows() as int, self.cols() as int, i as int, j as int);
            assert(i * self.cols() + j < n);
        }
        self.elements[i * self.num_cols + j]
    }

    /// Overwrites the cell at row `i`, column `j` with `color`, leaving every
    /// other cell and the dimensions as they were.
    pub fn set_cell(&mut self, i: usize, j: usize, color: Color)
        requires
            old(self).wf(),
            i < old(self).rows(),
            j < old(self).cols(),
        ensures
            final(self).wf(),
            final(self).rows() == old(self).rows(),
            final(self).cols() == old(self).cols(),
            final(self).cells() == old(self).cells().update(
                flat(old(self).cols(), (i as int, j as int)),
                color,
            ),
    {
        let n = self.elements.len();
        proof {
            lemma_flat_in_range(self.rows() as int, self.cols() as int, i as int, j as int);
            assert(i * self.cols() + j < n);
        }
        self.elements.set(i * self.num_cols + j, color);
    }

    /// Fills a fresh `num_rows` by `num_cols` grid by drawing one of the
    /// three playable colors from `prng` for each cell, in row-major order
    /// (row 0 left to right, then row 1, and so on), so that the same
    /// generator state always yields the same grid.
    pub fn random(prng: &mut rand::XorShiftRng, num_rows: usize, num_cols: usize) -> (g: Grid)
        requires
            num_rows >= 1,
            num_cols >= 1,
            num_rows * num_cols <= usize::MAX,
        ensures
            g.wf(),
            g.rows() == num_rows,
            g.cols() == num_cols,
            forall|k: int|
                0 <= k < g.cells().len() ==> (#[trigger] g.cells()[k]).spec_is_playable(),
    {
        let choices: Vec<Color> = vec![Color::Red, Color::Green, Color::Blue];
        proof {
            assert(choices@[0] == Color::Red);
            assert(choices@[1] == Color::Green);
            assert(choices@[2] == Color::Blue);
        }
        let total = num_rows * num_cols;
        let mut elements: Vec<Color> = Vec::with_capacity(total);
        let mut k: usize = 0;
        while k < total
            invariant
                0 <= k <= total,
                elements@.len() == k,
                choices@.len() == 3,
                forall|t: int| 0 <= t < 3 ==> (#[trigger] choices@[t]).spec_is_playable(),
                forall|t: int| 0 <= t < k ==> (#[trigger] elements@[t]).spec_is_playable(),
            decreases total - k,
        {
            let next = choose_color(prng, &choices);
            proof {
                let t = choose|t: int| 0 <= t < choices@.len() && choices@[t] == next;
                assert(choices@[t].spec_is_playable());
            }
            elements.push(next);
            k += 1;
        }
        Grid { elements, num_rows, num_cols }
    }

    /// Flood-fills the anchor's region to `target`: every cell of the
    /// anchor's current color that is 4-connected to the anchor through
    /// cells of that color becomes `target`, and no other cell changes.
    /// When `target` already is the anchor's color, the grid is left exactly
    /// as it was.
    #[verifier::rlimit(100)]
    pub fn expand(&mut self, target: Color)
        requires
            old(self).wf(),
        ensures
            final(self).wf(),
            final(self).rows() == old(self).rows(),
            final(self).cols() == old(self).cols(),
            final(self).cells() == expand_spec(
                old(self).cells(),
                old(self).rows(),
                old(self).cols(),
                target,
            ),
    {
        proof {
            self.lemma_nonempty();
        }
        let e0 = self.elements[0];
        if target == e0 {
            return ;
        }
        let ghost g0 = self.cells();
        let ghost rows = self.rows();
        let ghost cols = self.cols();
        let ghost mut done: Set<(int, int)> = Set::empty();
        let mut queue: VecDeque<(usize, usize)> = VecDeque::new();
        queue.push_back((0usize, 0usize));
        proof {
            assert(qc(queue@[0]) == (0int, 0int));
            assert(queue_has(queue@, (0int, 0int)));
        }
        while queue.len() > 0
            invariant
                self.wf(),
                self.rows() == rows,
                self.cols() == cols,
                rows >= 1,
                cols >= 1,
                g0.len() == rows * cols,
                self.cells().len() == g0.len(),
                g0.len() >= 1,
                e0 == g0[0],
                target != e0,
                forall|c: (int, int)| #[trigger]
                    done.contains(c) ==> in_bounds(rows, cols, c) && cell(g0, cols, c) == e0
                        && anchor_reaches(g0, rows, cols, e0, c),
                forall|c: (int, int)|
                    in_bounds(rows, cols, c) ==> #[trigger] cell(self.cells(), cols, c) == (
                    if done.contains(c) {
                        target
                    } else {
                        cell(g0, cols, c)
                    }),
                forall|c: (int, int)| #[trigger]
                    queue_has(queue@, c) ==> in_bounds(rows, cols, c) && (c == (0int, 0int)
                        || exists|d: (int, int)| done.contains(d) && adjacent(d, c)),
                forall|c: (int, int), n: (int, int)|
                    #![trigger done.contains(c), adjacent(c, n)]
                    done.contains(c) && adjacent(c, n) && in_bounds(rows, cols, n) && cell(
                        g0,
                        cols,
                        n,
                    ) == e0 ==> done.contains(n) || queue_has(queue@, n),
                done.contains((0int, 0int)) || queue_has(queue@, (0int, 0int)),
            decreases count_eq(self.cells(), e0) * 5 + queue@.len(),
        {
            let ghost q_before = queue@;
            let popped = queue.pop_front().unwrap();
            let (i, j): (usize, usize) = popped;
            proof {
                assert(popped == q_before[0]);
                assert(queue@ =~= q_before.subrange(1, q_before.len() as int));
                assert(queue_has(q_before, qc(q_before[0])));
                assert(in_bounds(rows, cols, qc(popped)));
            }
            let n = self.elements.len();
            proof {
                lemma_flat_in_range(rows as int, cols as int, i as int, j as int);
                assert(i * cols + j < n);
            }
            let idx = i * self.num_cols + j;
            let ghost c = (i as int, j as int);
            let ghost q_tail = queue@;
            if self.elements[idx] == e0 {
                proof {
                    assert(flat(cols, c) == idx as int);
                    assert(cell(self.cells(), cols, c) == e0);
                    assert(!done.contains(c));
                    assert(cell(g0, cols, c) == e0);
                    if c == (0int, 0int) {
                        lemma_anchor_reaches_self(g0, rows, cols, e0);
                    } else {
                        let d = choose|d: (int, int)| done.contains(d) && adjacent(d, c);
                        lemma_reach_step(g0, rows, cols, e0, d, c);
                    }
                    assert(anchor_reaches(g0, rows, cols, e0, c));
                }
                let ghost cells_before = self.cells();
                let ghost done_before = done;
                self.elements.set(idx, target);
                proof {
                    lemma_count_eq_update(cells_before, idx as int, target, e0);
                    assert(count_eq(self.cells(), e0) + 1 == count_eq(cells_before, e0));
                    done = done.insert(c);
                    lemma_frame_after_set(
                        g0,
                        rows,
                        cols,
                        e0,
                        target,
                        cells_before,
                        self.cells(),
                        done_before,
                        done,
                        c,
                    );
                }
                if i > 0 {
                    let v: (usize, usize) = (i - 1, j);
                    let ghost qs = queue@;
                    queue.push_back(v);
                    proof {
                        assert(qc(v) == (c.0 - 1, c.1));
                        lemma_extend_push(q_tail, qs, v, c, rows, cols);
                    }
                }
                if i + 1 < self.num_rows {
                    let v: (usize, usize) = (i + 1, j);
                    let ghost qs = queue@;
                    queue.push_back(v);
                    proof {
                        assert(qc(v) == (c.0 + 1, c.1));
                        lemma_extend_push(q_tail, qs, v, c, rows, cols);
                    }
                }
                if j > 0 {
                    let v: (usize, usize) = (i, j - 1);
                    let ghost qs = queue@;
                    queue.push_back(v);
                    proof {
                        assert(qc(v) == (c.0, c.1 - 1));
                        lemma_extend_push(q_tail, qs, v, c, rows, cols);
                    }
                }
                if j + 1 < self.num_cols {
                    let v: (usize, usize) = (i, j + 1);
                    let ghost qs = queue@;
                    queue.push_back(v);
                    proof {
                        assert(qc(v) == (c.0, c.1 + 1));
                        lemma_extend_push(q_tail, qs, v, c, rows, cols);
                    }
                }
                proof {
                    assert(queue@.len() <= q_before.len() + 3);
                    assert(queue_extends(q_tail, queue@, c, rows, cols));
                    lemma_neighbors_queued(rows, cols, c, queue@);
                    lemma_worklist_after_convert(
                        g0,
                        rows,
                        cols,
                        e0,
                        done_before,
                        done,
                        c,
                        q_before,
                        queue@,
                    );
                }
            } else {
                proof {
                    assert(flat(cols, c) == idx as int);
                    assert(cell(self.cells(), cols, c) != e0);
                    if cell(g0, cols, c) == e0 && !done.contains(c) {
                        assert(cell(self.cells(), cols, c) == cell(g0, cols, c));
                        assert(false);
                    }
                    lemma_worklist_after_skip(g0, rows, cols, e0, done, c, q_before, queue@);
                }
            }
        }
        proof {
            assert(queue@.len() == 0);
            assert(done.contains((0int, 0int))) by {
                if !done.contains((0int, 0int)) {
                    assert(queue_has(queue@, (0int, 0int)));
                    let t = choose|t: int| 0 <= t < queue@.len() && qc(queue@[t]) == (0int, 0int);
                    assert(false);
                }
            }
            assert forall|a: (int, int), nb: (int, int)|
                #![trigger done.contains(a), adjacent(a, nb)]
                done.contains(a) && adjacent(a, nb) && in_bounds(rows, cols, nb) && cell(
                    g0,
                    cols,
                    nb,
                ) == e0 implies done.contains(nb) by {
                if !done.contains(nb) {
                    assert(queue_has(queue@, nb));
                    let t = choose|t: int| 0 <= t < queue@.len() && qc(queue@[t]) == nb;
                    assert(false);
                }
            }
            lemma_region_is_done(g0, rows, cols, e0, done);
            let ge = expand_spec(g0, rows, cols, target);
            assert(ge.len() == g0.len());
            assert forall|k: int| 0 <= k < g0.len() implies self.cells()[k] == ge[k] by {
                lemma_unflat(rows as int, cols as int, k);
                let cp = (k / cols as int, k % cols as int);
                assert(in_bounds(rows, cols, cp));
                assert(flat(cols, cp) == k);
                assert(cell(self.cells(), cols, cp) == self.cells()[k]);
                assert(cell(g0, cols, cp) == g0[k]);
                if done.contains(cp) {
                    assert(anchor_reaches(g0, rows, cols, e0, cp));
                    assert(ge[k] == target);
                } else {
                    assert(!anchor_reaches(g0, rows, cols, e0, cp));
                    assert(ge[k] == g0[k]);
                }
            }
            assert(self.cells() =~= ge);
        }
    }

    /// Returns whether the whole grid is one color: true exactly when a
    /// linear scan finds every cell equal to the anchor cell (0, 0).
    pub fn is_uniform(&self) -> (r: bool)
        requires
            self.wf(),
        ensures
            r == self.spec_uniform(),
    {
        proof {
            self.lemma_nonempty();
        }
        let e0 = self.elements[0];
        let n = self.elements.len();
        let mut k: usize = 0;
        while k < n
            invariant
                n == self.cells().len(),
                0 <= k <= n,
                n >= 1,
                e0 == self.cells()[0],
                forall|t: int| 0 <= t < k ==> #[trigger] self.cells()[t] == self.cells()[0],
            decreases n - k,
        {
            if self.elements[k] != e0 {
                return false;
            }
            k += 1;
        }
        true
    }
}

} // verus!
