use vstd::prelude::*;
use vstd::set_lib::{lemma_int_range, lemma_len_subset, lemma_map_size_bound, set_int_range};

use crate::color::Color;
use crate::grid::{
    adjacent, anchor_reaches, cell, expand_spec, flat, in_bounds, is_region_path,
    lemma_expand_region, lemma_flat_in_range, lemma_flat_injective, lemma_flat_unflat,
    lemma_reach_step,
};

verus! {

/// A walk over in-bounds cells that all hold the color of its first cell,
/// stepping to a 4-connected neighbor each time.
pub open spec fn is_mono_path(g: Seq<Color>, rows: nat, cols: nat, p: Seq<(int, int)>) -> bool {
    &&& p.len() > 0
    &&& forall|k: int|
        0 <= k < p.len() ==> in_bounds(rows, cols, #[trigger] p[k]) && cell(g, cols, p[k]) == cell(
            g,
            cols,
            p[0],
        )
    &&& forall|k: int| 1 <= k < p.len() ==> adjacent(p[k - 1], #[trigger] p[k])
}

/// `a` and `b` lie in one region: they are connected through cells of their
/// common color.
#[verifier::opaque]
pub open spec fn same_region(
    g: Seq<Color>,
    rows: nat,
    cols: nat,
    a: (int, int),
    b: (int, int),
) -> bool {
    exists|p: Seq<(int, int)>|
        is_mono_path(g, rows, cols, p) && p[0] == a && p.last() == b
}

/// The cell of its region with the least flat index: each region has
/// exactly one.
pub open spec fn is_leader(g: Seq<Color>, rows: nat, cols: nat, l: (int, int)) -> bool {
    &&& in_bounds(rows, cols, l)
    &&& forall|d: (int, int)| #[trigger]
        same_region(g, rows, cols, l, d) ==> flat(cols, l) <= flat(cols, d)
}

/// The leader cells, one per region.
pub open spec fn leaders(g: Seq<Color>, rows: nat, cols: nat) -> Set<(int, int)> {
    Set::new(|l: (int, int)| is_leader(g, rows, cols, l))
}

/// How many distinct 4-connected single-color regions the grid holds.
pub open spec fn region_count(g: Seq<Color>, rows: nat, cols: nat) -> nat {
    leaders(g, rows, cols).len()
}

/// Cells of one region are in bounds and share one color.
proof fn lemma_region_props(g: Seq<Color>, rows: nat, cols: nat, a: (int, int), b: (int, int))
    requires
        same_region(g, rows, cols, a, b),
    ensures
        in_bounds(rows, cols, a),
        in_bounds(rows, cols, b),
        cell(g, cols, a) == cell(g, cols, b),
{
    reveal(same_region);
    let p = choose|p: Seq<(int, int)>|
        is_mono_path(g, rows, cols, p) && p[0] == a && p.last() == b;
    assert(p.last() == p[p.len() - 1]);
}

/// Every in-bounds cell lies in its own region.
proof fn lemma_region_refl(g: Seq<Color>, rows: nat, cols: nat, a: (int, int))
    requires
        in_bounds(rows, cols, a),
    ensures
        same_region(g, rows, cols, a, a),
{
    reveal(same_region);
    let p: Seq<(int, int)> = seq![a];
    assert(p.last() == a);
    assert(is_mono_path(g, rows, cols, p));
}

/// Lying in one region is symmetric: walk the path backwards.
proof fn lemma_region_sym(g: Seq<Color>, rows: nat, cols: nat, a: (int, int), b: (int, int))
    requires
        same_region(g, rows, cols, a, b),
    ensures
        same_region(g, rows, cols, b, a),
{
    reveal(same_region);
    let p = choose|p: Seq<(int, int)>|
        is_mono_path(g, rows, cols, p) && p[0] == a && p.last() == b;
    let n = p.len() as int;
    let q = Seq::new(p.len(), |i: int| p[n - 1 - i]);
    assert(q[0] == p[n - 1]);
    assert(q.last() == p[0]);
    assert forall|k: int|
        0 <= k < q.len() implies in_bounds(rows, cols, #[trigger] q[k]) && cell(g, cols, q[k])
        == cell(g, cols, q[0]) by {
        assert(q[k] == p[n - 1 - k]);
        assert(cell(g, cols, p[n - 1 - k]) == cell(g, cols, p[0]));
        assert(cell(g, cols, q[0]) == cell(g, cols, p[0]));
    }
    assert forall|k: int| 1 <= k < q.len() implies adjacent(q[k - 1], #[trigger] q[k]) by {
        assert(q[k - 1] == p[n - k]);
        assert(q[k] == p[n - 1 - k]);
        assert(adjacent(p[n - 1 - k], p[n - k]));
    }
    assert(is_mono_path(g, rows, cols, q));
}

/// Lying in one region is transitive: join the two paths.
proof fn lemma_region_trans(
    g: Seq<Color>,
    rows: nat,
    cols: nat,
    a: (int, int),
    b: (int, int),
    c: (int, int),
)
    requires
        same_region(g, rows, cols, a, b),
        same_region(g, rows, cols, b, c),
    ensures
        same_region(g, rows, cols, a, c),
{
    reveal(same_region);
    let p = choose|p: Seq<(int, int)>|
        is_mono_path(g, rows, cols, p) && p[0] == a && p.last() == b;
    let q = choose|q: Seq<(int, int)>|
        is_mono_path(g, rows, cols, q) && q[0] == b && q.last() == c;
    if q.len() == 1 {
        assert(b == c);
        assert(is_mono_path(g, rows, cols, p) && p[0] == a && p.last() == c);
    } else {
        let r = p + q.subrange(1, q.len() as int);
        let pn = p.len() as int;
        assert(r.len() == p.len() + q.len() - 1);
        assert(r[0] == p[0]);
        assert(r.last() == q.last());
        assert(cell(g, cols, q[0]) == cell(g, cols, p[0])) by {
            assert(p.last() == p[pn - 1]);
            assert(cell(g, cols, p[pn - 1]) == cell(g, cols, p[0]));
        }
        assert forall|k: int|
            0 <= k < r.len() implies in_bounds(rows, cols, #[trigger] r[k]) && cell(g, cols, r[k])
            == cell(g, cols, r[0]) by {
            if k < pn {
                assert(r[k] == p[k]);
            } else {
                assert(r[k] == q[k - pn + 1]);
                assert(cell(g, cols, q[k - pn + 1]) == cell(g, cols, q[0]));
            }
        }
        assert forall|k: int| 1 <= k < r.len() implies adjacent(r[k - 1], #[trigger] r[k]) by {
            if k < pn {
                assert(r[k - 1] == p[k - 1]);
                assert(r[k] == p[k]);
            } else if k == pn {
                assert(r[k - 1] == p[pn - 1]);
                assert(p.last() == p[pn - 1]);
                assert(r[k] == q[1]);
                assert(adjacent(q[0], q[1]));
            } else {
                assert(r[k - 1] == q[k - pn]);
                assert(r[k] == q[k - pn + 1]);
                assert(adjacent(q[k - pn], q[k - pn + 1]));
            }
        }
        assert(is_mono_path(g, rows, cols, r));
    }
}

/// Every in-bounds cell's region has a leader.
proof fn lemma_leader_exists(g: Seq<Color>, rows: nat, cols: nat, c: (int, int))
    requires
        cols >= 1,
        in_bounds(rows, cols, c),
    ensures
        exists|l: (int, int)|
            #[trigger] is_leader(g, rows, cols, l) && same_region(g, rows, cols, l, c),
    decreases flat(cols, c),
{
    lemma_flat_in_range(rows as int, cols as int, c.0, c.1);
    if is_leader(g, rows, cols, c) {
        lemma_region_refl(g, rows, cols, c);
        assert(is_leader(g, rows, cols, c) && same_region(g, rows, cols, c, c));
    } else {
        let d = choose|d: (int, int)|
            #[trigger] same_region(g, rows, cols, c, d) && !(flat(cols, c) <= flat(cols, d));
        lemma_region_props(g, rows, cols, c, d);
        lemma_flat_in_range(rows as int, cols as int, d.0, d.1);
        lemma_leader_exists(g, rows, cols, d);
        let l = choose|l: (int, int)|
            #[trigger] is_leader(g, rows, cols, l) && same_region(g, rows, cols, l, d);
        lemma_region_sym(g, rows, cols, c, d);
        lemma_region_trans(g, rows, cols, l, d, c);
        assert(is_leader(g, rows, cols, l) && same_region(g, rows, cols, l, c));
    }
}

/// A region has only one leader.
proof fn lemma_leader_unique(
    g: Seq<Color>,
    rows: nat,
    cols: nat,
    l1: (int, int),
    l2: (int, int),
)
    requires
        cols >= 1,
        is_leader(g, rows, cols, l1),
        is_leader(g, rows, cols, l2),
        same_region(g, rows, cols, l1, l2),
    ensures
        l1 == l2,
{
    lemma_region_sym(g, rows, cols, l1, l2);
    assert(flat(cols, l1) <= flat(cols, l2));
    assert(flat(cols, l2) <= flat(cols, l1));
    lemma_flat_injective(cols, l1, l2);
}

/// A cell the anchor reaches holds the anchor's color.
proof fn lemma_reach_color(g: Seq<Color>, rows: nat, cols: nat, e0: Color, c: (int, int))
    requires
        anchor_reaches(g, rows, cols, e0, c),
    ensures
        cell(g, cols, c) == e0,
        in_bounds(rows, cols, c),
{
    reveal(anchor_reaches);
    let p = choose|p: Seq<(int, int)>|
        is_region_path(g, rows, cols, e0, p) && p.last() == c;
    assert(p.last() == p[p.len() - 1]);
}

/// Reachability from the anchor spreads over a whole path of cells of the
/// anchor's color.
proof fn lemma_reach_spreads(
    g: Seq<Color>,
    rows: nat,
    cols: nat,
    e0: Color,
    p: Seq<(int, int)>,
    k0: int,
    m: int,
)
    requires
        is_mono_path(g, rows, cols, p),
        0 <= k0 < p.len(),
        0 <= m < p.len(),
        cell(g, cols, p[0]) == e0,
        anchor_reaches(g, rows, cols, e0, p[k0]),
    ensures
        anchor_reaches(g, rows, cols, e0, p[m]),
    decreases (if m >= k0 {
        m - k0
    } else {
        k0 - m
    }),
{
    if m == k0 {
    } else if m > k0 {
        lemma_reach_spreads(g, rows, cols, e0, p, k0, m - 1);
        assert(adjacent(p[m - 1], p[m]));
        lemma_reach_step(g, rows, cols, e0, p[m - 1], p[m]);
    } else {
        lemma_reach_spreads(g, rows, cols, e0, p, k0, m + 1);
        assert(adjacent(p[m], p[m + 1]));
        assert(adjacent(p[m + 1], p[m]));
        lemma_reach_step(g, rows, cols, e0, p[m + 1], p[m]);
    }
}

/// Expanding never cuts a region apart: cells of one region still lie in
/// one region afterwards.
proof fn lemma_same_region_preserved(
    g: Seq<Color>,
    rows: nat,
    cols: nat,
    target: Color,
    a: (int, int),
    b: (int, int),
)
    requires
        rows >= 1,
        cols >= 1,
        g.len() == rows * cols,
        target != g[0],
        same_region(g, rows, cols, a, b),
    ensures
        same_region(expand_spec(g, rows, cols, target), rows, cols, a, b),
{
    reveal(same_region);
    let e0 = g[0];
    let ng = expand_spec(g, rows, cols, target);
    let p = choose|p: Seq<(int, int)>|
        is_mono_path(g, rows, cols, p) && p[0] == a && p.last() == b;
    if exists|k: int| 0 <= k < p.len() && anchor_reaches(g, rows, cols, e0, #[trigger] p[k]) {
        let k0 = choose|k: int|
            0 <= k < p.len() && anchor_reaches(g, rows, cols, e0, #[trigger] p[k]);
        lemma_reach_color(g, rows, cols, e0, p[k0]);
        assert(cell(g, cols, p[0]) == e0);
        assert forall|k: int| 0 <= k < p.len() implies cell(ng, cols, #[trigger] p[k])
            == target by {
            lemma_reach_spreads(g, rows, cols, e0, p, k0, k);
            lemma_expand_region(g, rows, cols, target, p[k]);
        }
        assert(is_mono_path(ng, rows, cols, p));
    } else {
        assert forall|k: int| 0 <= k < p.len() implies cell(ng, cols, #[trigger] p[k]) == cell(
            g,
            cols,
            p[k],
        ) by {
            assert(!anchor_reaches(g, rows, cols, e0, p[k]));
            lemma_expand_region(g, rows, cols, target, p[k]);
        }
        assert(is_mono_path(ng, rows, cols, p));
    }
    assert(p.last() == b);
}

/// The set of in-bounds coordinates of the board.
spec fn board(rows: nat, cols: nat) -> Set<(int, int)> {
    Set::new(|c: (int, int)| in_bounds(rows, cols, c))
}

/// The board holds finitely many coordinates.
proof fn lemma_board_finite(rows: nat, cols: nat)
    requires
        rows >= 1,
        cols >= 1,
    ensures
        board(rows, cols).finite(),
{
    let total = (rows * cols) as int;
    assert(total >= 0) by (nonlinear_arith)
        requires
            rows >= 1,
            cols >= 1,
            total == (rows * cols) as int,
    ;
    let idxs = set_int_range(0, total);
    lemma_int_range(0, total);
    let f = |k: int| (k / cols as int, k % cols as int);
    let img = idxs.map(f);
    lemma_map_size_bound(idxs, img, f);
    assert forall|c: (int, int)| board(rows, cols).contains(c) implies img.contains(c) by {
        lemma_flat_in_range(rows as int, cols as int, c.0, c.1);
        lemma_flat_unflat(cols as int, c.0, c.1);
        let k = flat(cols, c);
        assert(idxs.contains(k));
        assert(c == (c.0, c.1));
        assert(f(k) == c);
    }
    lemma_len_subset(board(rows, cols), img);
}

/// The leader of the region that holds `c`.
spec fn leader_of(g: Seq<Color>, rows: nat, cols: nat, c: (int, int)) -> (int, int) {
    choose|l: (int, int)|
        #[trigger] is_leader(g, rows, cols, l) && same_region(g, rows, cols, l, c)
}

/// Expanding can merge regions but never split one: the number of distinct
/// 4-connected single-color regions never grows.
pub proof fn lemma_expand_never_adds_regions(g: Seq<Color>, rows: nat, cols: nat, target: Color)
    requires
        rows >= 1,
        cols >= 1,
        g.len() == rows * cols,
    ensures
        region_count(expand_spec(g, rows, cols, target), rows, cols) <= region_count(
            g,
            rows,
            cols,
        ),
{
    assert(g.len() >= 1) by (nonlinear_arith)
        requires
            rows >= 1,
            cols >= 1,
            g.len() == rows * cols,
    ;
    if target == g[0] {
        assert(expand_spec(g, rows, cols, target) == g);
        return ;
    }
    let ng = expand_spec(g, rows, cols, target);
    let old_leaders = leaders(g, rows, cols);
    let new_leaders = leaders(ng, rows, cols);
    lemma_board_finite(rows, cols);
    assert(old_leaders.subset_of(board(rows, cols)));
    lemma_len_subset(old_leaders, board(rows, cols));
    let f = |c: (int, int)| leader_of(ng, rows, cols, c);
    let img = old_leaders.map(f);
    lemma_map_size_bound(old_leaders, img, f);
    assert forall|l: (int, int)| new_leaders.contains(l) implies img.contains(l) by {
        assert(is_leader(ng, rows, cols, l));
        lemma_leader_exists(g, rows, cols, l);
        let c = choose|c: (int, int)|
            #[trigger] is_leader(g, rows, cols, c) && same_region(g, rows, cols, c, l);
        assert(old_leaders.contains(c));
        lemma_same_region_preserved(g, rows, cols, target, c, l);
        lemma_region_props(ng, rows, cols, c, l);
        lemma_leader_exists(ng, rows, cols, c);
        assert(is_leader(ng, rows, cols, f(c)) && same_region(ng, rows, cols, f(c), c));
        lemma_region_trans(ng, rows, cols, f(c), c, l);
        lemma_leader_unique(ng, rows, cols, f(c), l);
        assert(old_leaders.contains(c) && f(c) == l);
    }
    lemma_len_subset(new_leaders, img);
}

} // verus!
