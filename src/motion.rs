//! What a move does to the cells of a board and to the estimate of its
//! distance from a goal.

use vstd::arithmetic::div_mod::lemma_fundamental_div_mod_converse;
use vstd::prelude::*;

use crate::game::{
    abs_diff, dist_below, lemma_not_empty, lemma_position_at, lemma_position_of,
    lemma_slide_well_formed, manhattan, neighbour, position, slide, slide_all, tile_dist,
    well_formed, Move,
};

verus! {

/// With the hole in the top left corner it cannot move left or up; in the
/// bottom right corner it cannot move right or down.
pub proof fn lemma_corner_moves_blocked(s: Seq<u8>, side: nat)
    requires
        well_formed(s, side),
    ensures
        position(s, 0) == 0 ==> slide(s, side, Move::Left) is None && slide(s, side, Move::Up) is None,
        position(s, 0) == s.len() - 1 ==> slide(s, side, Move::Right) is None && slide(
            s,
            side,
            Move::Down,
        ) is None,
{
    let w = side as int;
    lemma_fundamental_div_mod_converse(0, w, 0, 0);
    assert(s.len() - 1 == (w - 1) * w + (w - 1)) by (nonlinear_arith)
        requires
            s.len() == w * w,
    ;
    lemma_fundamental_div_mod_converse(s.len() - 1, w, w - 1, w - 1);
}

/// A move that stays on the grid exchanges the hole with the one tile next
/// to it in that direction: the cells differ at exactly those two places, and
/// the board stays well formed.
pub proof fn lemma_move_swaps_two_cells(s: Seq<u8>, side: nat, m: Move)
    requires
        well_formed(s, side),
        slide(s, side, m) is Some,
    ensures
        ({
            let n = slide(s, side, m)->0;
            let h = position(s, 0);
            let t = neighbour(h, side as int, m)->0;
            &&& well_formed(n, side)
            &&& 0 <= h < s.len()
            &&& 0 <= t < s.len()
            &&& s[h] == 0
            &&& h != t
            &&& n[h] == s[t]
            &&& n[t] == s[h]
            &&& forall|k: int| 0 <= k < s.len() ==> (#[trigger] n[k] != s[k] <==> (k == h || k == t))
        }),
{
    lemma_slide_well_formed(s, side, m);
    lemma_not_empty(s, side);
    lemma_position_of(s, 0);
    let h = position(s, 0);
    let w = side as int;
    let t = neighbour(h, w, m)->0;
    assert(h != t) by {
        if m == Move::Up || m == Move::Down {
            assert(w > 0);
        }
    }
    assert(s[t] != s[h]);
}

/// Tiles that a move does not touch keep their place.
proof fn lemma_untouched_tile(s: Seq<u8>, side: nat, m: Move, u: u8)
    requires
        well_formed(s, side),
        slide(s, side, m) is Some,
        (u as int) < s.len(),
        u != 0,
        u != s[neighbour(position(s, 0), side as int, m)->0],
    ensures
        position(slide(s, side, m)->0, u) == position(s, u),
{
    lemma_move_swaps_two_cells(s, side, m);
    let n = slide(s, side, m)->0;
    lemma_position_of(s, u);
    let p = position(s, u);
    assert(n[p] == s[p]);
    lemma_position_at(n, p);
}

proof fn lemma_dist_below_moved(s: Seq<u8>, g: Seq<u8>, side: nat, m: Move, k: nat)
    requires
        well_formed(s, side),
        slide(s, side, m) is Some,
        k <= s.len(),
    ensures
        ({
            let n = slide(s, side, m)->0;
            let t = s[neighbour(position(s, 0), side as int, m)->0];
            dist_below(n, g, side, k) - dist_below(s, g, side, k) == if 0 < t && (t as int) < k {
                tile_dist(n, g, side, t) - tile_dist(s, g, side, t)
            } else {
                0
            }
        }),
    decreases k,
{
    if k > 1 {
        lemma_dist_below_moved(s, g, side, m, (k - 1) as nat);
        let t = s[neighbour(position(s, 0), side as int, m)->0];
        let u = (k - 1) as u8;
        if u != t {
            lemma_untouched_tile(s, side, m, u);
        }
    }
}

/// A board is at estimated distance zero from itself.
pub proof fn lemma_estimate_self(s: Seq<u8>, side: nat)
    ensures
        manhattan(s, s, side) == 0,
{
    lemma_dist_below_self(s, side, s.len());
}

proof fn lemma_dist_below_self(s: Seq<u8>, side: nat, k: nat)
    ensures
        dist_below(s, s, side, k) == 0,
    decreases k,
{
    if k > 1 {
        lemma_dist_below_self(s, side, (k - 1) as nat);
    }
}

/// After a move the estimate changes by exactly the change in the Manhattan
/// distance of the one tile that moved.
pub proof fn lemma_estimate_after_move(s: Seq<u8>, g: Seq<u8>, side: nat, m: Move)
    requires
        well_formed(s, side),
        slide(s, side, m) is Some,
    ensures
        ({
            let n = slide(s, side, m)->0;
            let t = s[neighbour(position(s, 0), side as int, m)->0];
            manhattan(n, g, side) - manhattan(s, g, side) == tile_dist(n, g, side, t) - tile_dist(
                s,
                g,
                side,
                t,
            )
        }),
{
    lemma_move_swaps_two_cells(s, side, m);
    lemma_dist_below_moved(s, g, side, m, s.len());
    let h = position(s, 0);
    let t = s[neighbour(h, side as int, m)->0];
    assert(t != 0);
}

/// A cell and its neighbour are one step apart on the grid.
proof fn lemma_neighbour_one_step(h: int, w: int, m: Move)
    requires
        w > 0,
        0 <= h < w * w,
        neighbour(h, w, m) is Some,
    ensures
        ({
            let t = neighbour(h, w, m)->0;
            abs_diff(h % w, t % w) + abs_diff(h / w, t / w) == 1
        }),
{
    let t = neighbour(h, w, m)->0;
    vstd::arithmetic::div_mod::lemma_fundamental_div_mod(h, w);
    vstd::arithmetic::div_mod::lemma_mod_bound(h, w);
    let x = h % w;
    let y = h / w;
    assert(h == y * w + x) by (nonlinear_arith)
        requires
            h == w * (h / w) + h % w,
            x == h % w,
            y == h / w,
    ;
    match m {
        Move::Left => {
            lemma_fundamental_div_mod_converse(t, w, y, x - 1);
        },
        Move::Right => {
            lemma_fundamental_div_mod_converse(t, w, y, x + 1);
        },
        Move::Up => {
            assert(t == (y - 1) * w + x) by (nonlinear_arith)
                requires
                    t == h - w,
                    h == y * w + x,
            ;
            lemma_fundamental_div_mod_converse(t, w, y - 1, x);
        },
        Move::Down => {
            assert(t == (y + 1) * w + x) by (nonlinear_arith)
                requires
                    t == h + w,
                    h == y * w + x,
            ;
            lemma_fundamental_div_mod_converse(t, w, y + 1, x);
        },
    }
}

/// A move changes the estimate by at most one.
pub proof fn lemma_estimate_step(s: Seq<u8>, g: Seq<u8>, side: nat, m: Move)
    requires
        well_formed(s, side),
        slide(s, side, m) is Some,
    ensures
        -1 <= manhattan(slide(s, side, m)->0, g, side) - manhattan(s, g, side) <= 1,
{
    lemma_estimate_after_move(s, g, side, m);
    lemma_move_swaps_two_cells(s, side, m);
    let n = slide(s, side, m)->0;
    let h = position(s, 0);
    let w = side as int;
    let t = neighbour(h, w, m)->0;
    let tile = s[t];
    lemma_position_at(s, t);
    assert(n[h] == tile);
    lemma_position_at(n, h);
    lemma_neighbour_one_step(h, w, m);
}

/// The estimate never exceeds the number of moves of any sequence that
/// takes the board to the goal.
pub proof fn lemma_estimate_admissible(s: Seq<u8>, g: Seq<u8>, side: nat, p: Seq<Move>)
    requires
        well_formed(s, side),
        slide_all(s, side, p) == Some(g),
    ensures
        manhattan(s, g, side) <= p.len(),
    decreases p.len(),
{
    if p.len() == 0 {
        lemma_estimate_self(g, side);
    } else {
        let n = slide(s, side, p[0])->0;
        lemma_slide_well_formed(s, side, p[0]);
        lemma_estimate_step(s, g, side, p[0]);
        lemma_estimate_admissible(n, g, side, p.drop_first());
    }
}

} // verus!
