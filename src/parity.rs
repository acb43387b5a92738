//! An invariant of moves: the parity of the inversions among the tiles, with
//! a correction for the row of the hole. Boards that differ in it cannot be
//! reached from one another.

use vstd::arithmetic::div_mod::lemma_fundamental_div_mod_converse;
use vstd::prelude::*;

use crate::game::{
    lemma_not_empty, lemma_position_at, lemma_position_of, lemma_slide_well_formed,
    lemma_swapped_permutation, neighbour, position, slide, slide_all, swapped, well_formed, Move,
};
use crate::search::{reachable, uses_only};

verus! {

/// The number of values of `q` that are tiles (not `0`) below `t`.
pub open spec fn smaller_tiles(t: u8, q: Seq<u8>) -> nat
    decreases q.len(),
{
    if q.len() == 0 {
        0
    } else {
        smaller_tiles(t, q.drop_first()) + if 0 < q[0] && q[0] < t {
            1nat
        } else {
            0nat
        }
    }
}

/// The number of pairs of a value of `x` and a smaller tile of `y`.
pub open spec fn crossings(x: Seq<u8>, y: Seq<u8>) -> nat
    decreases x.len(),
{
    if x.len() == 0 {
        0
    } else {
        smaller_tiles(x[0], y) + crossings(x.drop_first(), y)
    }
}

/// The number of pairs of tiles (not the hole) of `q` that stand in
/// decreasing order.
pub open spec fn inversions(q: Seq<u8>) -> nat
    decreases q.len(),
{
    if q.len() == 0 {
        0
    } else {
        smaller_tiles(q[0], q.drop_first()) + inversions(q.drop_first())
    }
}

/// The parity of the inversions plus `side - 1` times the row of the hole.
/// No move changes it.
pub open spec fn parity_class(s: Seq<u8>, side: nat) -> int {
    (inversions(s) + (side - 1) * (position(s, 0) / (side as int))) % 2
}

proof fn lemma_smaller_add(t: u8, a: Seq<u8>, b: Seq<u8>)
    ensures
        smaller_tiles(t, a + b) == smaller_tiles(t, a) + smaller_tiles(t, b),
    decreases a.len(),
{
    if a.len() == 0 {
        assert(a + b =~= b);
    } else {
        assert((a + b).drop_first() =~= a.drop_first() + b);
        lemma_smaller_add(t, a.drop_first(), b);
    }
}

proof fn lemma_crossings_add_right(x: Seq<u8>, a: Seq<u8>, b: Seq<u8>)
    ensures
        crossings(x, a + b) == crossings(x, a) + crossings(x, b),
    decreases x.len(),
{
    if x.len() > 0 {
        lemma_smaller_add(x[0], a, b);
        lemma_crossings_add_right(x.drop_first(), a, b);
    }
}

proof fn lemma_inversions_add(x: Seq<u8>, y: Seq<u8>)
    ensures
        inversions(x + y) == inversions(x) + inversions(y) + crossings(x, y),
    decreases x.len(),
{
    if x.len() == 0 {
        assert(x + y =~= y);
    } else {
        let r = x.drop_first();
        assert((x + y).drop_first() =~= r + y);
        assert((x + y)[0] == x[0]);
        lemma_inversions_add(r, y);
        lemma_smaller_add(x[0], r, y);
    }
}

proof fn lemma_single(u: u8, y: Seq<u8>)
    ensures
        inversions(seq![u]) == 0,
        crossings(seq![u], y) == smaller_tiles(u, y),
        smaller_tiles(u, seq![0u8]) == 0,
        forall|v: u8| #[trigger] smaller_tiles(v, seq![u]) == if 0 < u && u < v { 1nat } else { 0nat },
{
    let e = seq![u].drop_first();
    assert(e =~= Seq::<u8>::empty());
    assert(smaller_tiles(u, e) == 0);
    assert(inversions(e) == 0);
    assert(crossings(e, y) == 0);
    let z = seq![0u8].drop_first();
    assert(z =~= Seq::<u8>::empty());
    assert(smaller_tiles(u, z) == 0);
    assert forall|v: u8| #[trigger] smaller_tiles(v, seq![u]) == if 0 < u && u < v { 1nat } else { 0nat } by {
        assert(smaller_tiles(v, e) == 0);
    }
}

/// The inversions of `a + [u] + b + [v] + c`, taken apart.
proof fn lemma_expand(a: Seq<u8>, u: u8, b: Seq<u8>, v: u8, c: Seq<u8>)
    ensures
        inversions(a + seq![u] + b + seq![v] + c) == inversions(a) + inversions(b) + inversions(c)
            + crossings(a, seq![u]) + crossings(a, b) + crossings(a, seq![v]) + crossings(a, c)
            + smaller_tiles(u, b) + smaller_tiles(u, seq![v]) + smaller_tiles(u, c) + crossings(
            b,
            seq![v],
        ) + crossings(b, c) + smaller_tiles(v, c),
{
    let r3 = seq![v] + c;
    let r2 = b + r3;
    let r1 = seq![u] + r2;
    assert(a + seq![u] + b + seq![v] + c =~= a + r1);
    lemma_inversions_add(a, r1);
    lemma_inversions_add(seq![u], r2);
    lemma_inversions_add(b, r3);
    lemma_inversions_add(seq![v], c);
    lemma_single(u, r2);
    lemma_single(v, c);
    lemma_crossings_add_right(a, seq![u], r2);
    lemma_crossings_add_right(a, b, r3);
    lemma_crossings_add_right(a, seq![v], c);
    lemma_smaller_add(u, b, r3);
    lemma_smaller_add(u, seq![v], c);
    lemma_crossings_add_right(b, seq![v], c);
}

proof fn lemma_hole_smaller(y: Seq<u8>)
    ensures
        smaller_tiles(0, y) == 0,
    decreases y.len(),
{
    if y.len() > 0 {
        lemma_hole_smaller(y.drop_first());
    }
}

proof fn lemma_hole_crossed(x: Seq<u8>)
    ensures
        crossings(x, seq![0u8]) == 0,
    decreases x.len(),
{
    if x.len() > 0 {
        lemma_single(0, x);
        assert(smaller_tiles(x[0], seq![0u8]) == 0);
        lemma_hole_crossed(x.drop_first());
    }
}

/// A tile and the tiles of `b`, none equal to it, stand in one order or the
/// other: together they give `b.len()` pairs.
proof fn lemma_pairs(t: u8, b: Seq<u8>)
    requires
        t > 0,
        forall|i: int| 0 <= i < b.len() ==> #[trigger] b[i] != 0 && b[i] != t,
    ensures
        smaller_tiles(t, b) + crossings(b, seq![t]) == b.len(),
    decreases b.len(),
{
    if b.len() > 0 {
        let r = b.drop_first();
        assert forall|i: int| 0 <= i < r.len() implies #[trigger] r[i] != 0 && r[i] != t by {
            assert(r[i] == b[i + 1]);
        }
        lemma_pairs(t, r);
        assert(b[0] != 0 && b[0] != t);
        lemma_single(t, b);
        assert(smaller_tiles(b[0], seq![t]) == if 0 < t && t < b[0] { 1nat } else { 0nat });
    }
}

/// Exchanging the hole with a tile changes the inversions by the tiles
/// between them, up to an even number.
proof fn lemma_swap_inversions(s: Seq<u8>, h: int, t: int) -> (pairs: int)
    requires
        0 <= h < s.len(),
        0 <= t < s.len(),
        h != t,
        s[h] == 0,
        s[t] != 0,
        forall|k: int| 0 <= k < s.len() && k != h ==> #[trigger] s[k] != 0,
        forall|k: int| 0 <= k < s.len() && k != t ==> #[trigger] s[k] != s[t],
    ensures
        inversions(swapped(s, h, t)) - inversions(s) == (if h < t {
            t - h - 1
        } else {
            h - t - 1
        }) - 2 * pairs,
{
    let n = swapped(s, h, t);
    let i = if h < t { h } else { t };
    let j = if h < t { t } else { h };
    let a = s.subrange(0, i);
    let b = s.subrange(i + 1, j);
    let c = s.subrange(j + 1, s.len() as int);
    assert(s =~= a + seq![s[i]] + b + seq![s[j]] + c);
    assert(n =~= a + seq![s[j]] + b + seq![s[i]] + c);
    lemma_expand(a, s[i], b, s[j], c);
    lemma_expand(a, s[j], b, s[i], c);
    let tile = s[t];
    assert forall|k: int| 0 <= k < b.len() implies #[trigger] b[k] != 0 && b[k] != tile by {
        assert(b[k] == s[i + 1 + k]);
    }
    lemma_pairs(tile, b);
    lemma_hole_smaller(b);
    lemma_hole_crossed(b);
    lemma_single(tile, b);
    lemma_single(0, b);
    assert(smaller_tiles(0, seq![tile]) == 0);
    assert(smaller_tiles(tile, seq![0u8]) == 0);
    if h < t {
        crossings(b, seq![tile]) as int
    } else {
        smaller_tiles(tile, b) as int
    }
}

/// Moving the hole keeps the parity class.
pub proof fn lemma_slide_keeps_parity(s: Seq<u8>, side: nat, m: Move)
    requires
        well_formed(s, side),
        slide(s, side, m) is Some,
    ensures
        parity_class(slide(s, side, m)->0, side) == parity_class(s, side),
{
    lemma_slide_well_formed(s, side, m);
    lemma_not_empty(s, side);
    lemma_position_of(s, 0);
    let w = side as int;
    let h = position(s, 0);
    let t = neighbour(h, w, m)->0;
    let n = swapped(s, h, t);
    lemma_swapped_permutation(s, h, t);
    assert(n[t] == 0);
    lemma_position_at(n, t);
    assert(h != t) by {
        if m == Move::Up || m == Move::Down {
            assert(w > 0);
        }
    }
    assert(s[t] != 0);
    let pairs = lemma_swap_inversions(s, h, t);
    // The row of the hole before and after.
    vstd::arithmetic::div_mod::lemma_fundamental_div_mod(h, w);
    vstd::arithmetic::div_mod::lemma_mod_bound(h, w);
    let x = h % w;
    let y = h / w;
    assert(h == y * w + x) by (nonlinear_arith)
        requires
            h == w * (h / w) + h % w,
            x == h % w,
            y == h / w,
    ;
    match m {
        Move::Left => {
            lemma_fundamental_div_mod_converse(t, w, y, x - 1);
        },
        Move::Right => {
            lemma_fundamental_div_mod_converse(t, w, y, x + 1);
        },
        Move::Up => {
            assert(t == (y - 1) * w + x) by (nonlinear_arith)
                requires
                    t == h - w,
                    h == y * w + x,
            ;
            lemma_fundamental_div_mod_converse(t, w, y - 1, x);
            assert((w - 1) * (y - 1) == (w - 1) * y - (w - 1)) by (nonlinear_arith);
        },
        Move::Down => {
            assert(t == (y + 1) * w + x) by (nonlinear_arith)
                requires
                    t == h + w,
                    h == y * w + x,
            ;
            lemma_fundamental_div_mod_converse(t, w, y + 1, x);
            assert((w - 1) * (y + 1) == (w - 1) * y + (w - 1)) by (nonlinear_arith);
        },
    }
}

/// Any sequence of moves keeps the parity class.
proof fn lemma_slide_all_keeps_parity(s: Seq<u8>, side: nat, p: Seq<Move>)
    requires
        well_formed(s, side),
    ensures
        slide_all(s, side, p) matches Some(e) ==> well_formed(e, side) && parity_class(e, side)
            == parity_class(s, side),
    decreases p.len(),
{
    if p.len() > 0 {
        if slide(s, side, p[0]) is Some {
            let n = slide(s, side, p[0])->0;
            lemma_slide_well_formed(s, side, p[0]);
            lemma_slide_keeps_parity(s, side, p[0]);
            lemma_slide_all_keeps_parity(n, side, p.drop_first());
        }
    }
}

/// No sequence of moves joins boards of different parity classes: a board
/// with two tiles exchanged, the hole left in place, is out of reach.
pub proof fn lemma_parity_unreachable(s: Seq<u8>, g: Seq<u8>, side: nat, moves: Seq<Move>)
    requires
        well_formed(s, side),
        parity_class(s, side) != parity_class(g, side),
    ensures
        !reachable(s, g, side, moves),
{
    if reachable(s, g, side, moves) {
        let p = choose|p: Seq<Move>| uses_only(p, moves) && #[trigger] slide_all(s, side, p) == Some(g);
        lemma_slide_all_keeps_parity(s, side, p);
    }
}

} // verus!
