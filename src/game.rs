//! Boards of a sliding-tile puzzle and the moves of their hole.

use vstd::arithmetic::div_mod::{lemma_fundamental_div_mod, lemma_fundamental_div_mod_converse};
use vstd::prelude::*;

verus! {

/// A move of the hole: `Move::Left` swaps the hole with the tile to its left,
/// and so on.
#[derive(Clone, Copy, Debug, PartialEq, Eq, Structural)]
pub enum Move {
    Left,
    Right,
    Up,
    Down,
}

/// The four moves, for a search over all of them.
pub const ALL_MOVES: [Move; 4] = [Move::Left, Move::Right, Move::Up, Move::Down];

impl Move {
    /// The move that undoes this one.
    pub open spec fn opposite(self) -> Move {
        match self {
            Move::Left => Move::Right,
            Move::Right => Move::Left,
            Move::Up => Move::Down,
            Move::Down => Move::Up,
        }
    }

    /// Returns the opposite move.
    pub fn reverse(self) -> (r: Move)
        ensures
            r == self.opposite(),
    {
        match self {
            Move::Left => Move::Right,
            Move::Right => Move::Left,
            Move::Up => Move::Down,
            Move::Down => Move::Up,
        }
    }
}

/// The largest number of cells a board may have: every cell value fits in a `u8`.
pub const MAX_CELLS: usize = 255;

/// `s` holds each of `0 .. s.len()` exactly once: every value is below the
/// length, no value is repeated, and no value is missing.
pub open spec fn is_permutation(s: Seq<u8>) -> bool {
    &&& forall|i: int| 0 <= i < s.len() ==> (#[trigger] s[i] as int) < s.len()
    &&& forall|i: int, j: int| 0 <= i < s.len() && 0 <= j < s.len() && i != j ==> s[i] != s[j]
    &&& forall|t: u8| (t as int) < s.len() ==> #[trigger] s.contains(t)
}

/// The cells of a square board of edge `side`, in row-major order, with `0`
/// for the hole.
pub open spec fn well_formed(s: Seq<u8>, side: nat) -> bool {
    &&& side > 0
    &&& s.len() == side * side
    &&& s.len() <= MAX_CELLS
    &&& is_permutation(s)
}

/// The index of the cell that holds `t`.
pub open spec fn position(s: Seq<u8>, t: u8) -> int {
    choose|i: int| 0 <= i < s.len() && s[i] == t
}

/// The index of the cell next to index `h` in direction `m`, on a grid of edge
/// `side`; `None` where that would leave the grid.
pub open spec fn neighbour(h: int, side: int, m: Move) -> Option<int> {
    let x = h % side;
    let y = h / side;
    match m {
        Move::Left => if x == 0 { None } else { Some(h - 1) },
        Move::Right => if x == side - 1 { None } else { Some(h + 1) },
        Move::Up => if y == 0 { None } else { Some(h - side) },
        Move::Down => if y == side - 1 { None } else { Some(h + side) },
    }
}

/// `s` with the cells at `i` and `j` exchanged.
pub open spec fn swapped(s: Seq<u8>, i: int, j: int) -> Seq<u8> {
    s.update(i, s[j]).update(j, s[i])
}

/// The cells after the hole moves in direction `m`, or `None` where the hole
/// would leave the grid.
pub open spec fn slide(s: Seq<u8>, side: nat, m: Move) -> Option<Seq<u8>> {
    let h = position(s, 0);
    match neighbour(h, side as int, m) {
        Some(t) => Some(swapped(s, h, t)),
        None => None,
    }
}

/// The cells after the moves of `p` in turn, or `None` where one of them
/// would take the hole off the grid.
pub open spec fn slide_all(s: Seq<u8>, side: nat, p: Seq<Move>) -> Option<Seq<u8>>
    decreases p.len(),
{
    if p.len() == 0 {
        Some(s)
    } else {
        match slide(s, side, p[0]) {
            Some(n) => slide_all(n, side, p.drop_first()),
            None => None,
        }
    }
}

/// A value of a distinct sequence is at the index where it was seen.
pub proof fn lemma_position_at(s: Seq<u8>, i: int)
    requires
        is_permutation(s),
        0 <= i < s.len(),
    ensures
        position(s, s[i]) == i,
{
    let t = s[i];
    assert(0 <= i < s.len() && s[i] == t);
    let p = position(s, t);
    assert(0 <= p < s.len() && s[p] == t);
}

/// Every value below the length has a position.
pub proof fn lemma_position_of(s: Seq<u8>, t: u8)
    requires
        is_permutation(s),
        (t as int) < s.len(),
    ensures
        0 <= position(s, t) < s.len(),
        s[position(s, t)] == t,
{
    assert(s.contains(t));
    let i = choose|i: int| 0 <= i < s.len() && s[i] == t;
    lemma_position_at(s, i);
}

/// `k * k`.
pub open spec fn square(k: nat) -> nat {
    k * k
}

/// `n` is the square of a whole number.
pub open spec fn is_square(n: nat) -> bool {
    exists|k: nat| k <= n && #[trigger] square(k) == n
}

/// Exchanging two cells keeps a permutation a permutation.
pub proof fn lemma_swapped_permutation(s: Seq<u8>, i: int, j: int)
    requires
        is_permutation(s),
        0 <= i < s.len(),
        0 <= j < s.len(),
    ensures
        is_permutation(swapped(s, i, j)),
        swapped(s, i, j).len() == s.len(),
{
    let n = swapped(s, i, j);
    assert forall|t: u8| (t as int) < n.len() implies #[trigger] n.contains(t) by {
        assert(s.contains(t));
        let p = choose|p: int| 0 <= p < s.len() && s[p] == t;
        if p == i {
            assert(n[j] == t);
        } else if p == j {
            assert(n[i] == t);
        } else {
            assert(n[p] == t);
        }
    }
    assert forall|a: int, b: int| 0 <= a < n.len() && 0 <= b < n.len() && a != b implies n[a]
        != n[b] by {
        let pa = if a == i { j } else if a == j { i } else { a };
        let pb = if b == i { j } else if b == j { i } else { b };
        assert(n[a] == s[pa]);
        assert(n[b] == s[pb]);
    }
}

/// A move keeps a board well formed.
pub proof fn lemma_slide_well_formed(s: Seq<u8>, side: nat, m: Move)
    requires
        well_formed(s, side),
        slide(s, side, m) is Some,
    ensures
        well_formed(slide(s, side, m)->0, side),
        0 <= position(s, 0) < s.len(),
        0 <= neighbour(position(s, 0), side as int, m)->0 < s.len(),
{
    let h = position(s, 0);
    lemma_not_empty(s, side);
    lemma_position_of(s, 0);
    lemma_neighbour_in_grid(h, side as int, m);
    let t = neighbour(h, side as int, m)->0;
    lemma_swapped_permutation(s, h, t);
}

/// A neighbour inside the grid is a cell of the grid.
pub proof fn lemma_neighbour_in_grid(h: int, side: int, m: Move)
    requires
        side > 0,
        0 <= h < side * side,
        neighbour(h, side, m) is Some,
    ensures
        0 <= neighbour(h, side, m)->0 < side * side,
{
    lemma_fundamental_div_mod(h, side);
    let x = h % side;
    let y = h / side;
    vstd::arithmetic::div_mod::lemma_mod_bound(h, side);
    assert(0 <= y < side) by (nonlinear_arith)
        requires
            h == side * y + x,
            0 <= x < side,
            0 <= h < side * side,
    ;
    assert(y * side + x == h) by (nonlinear_arith)
        requires
            h == side * (h / side) + h % side,
            x == h % side,
            y == h / side,
    ;
    if y < side - 1 {
        assert(h + side < side * side) by (nonlinear_arith)
            requires
                y * side + x == h,
                0 <= x < side,
                0 <= y < side - 1,
        ;
    }
    if y > 0 {
        assert(h - side >= 0) by (nonlinear_arith)
            requires
                y * side + x == h,
                0 <= x,
                y >= 1,
                side > 0,
        ;
    }
    assert(0 <= y * side <= (side - 1) * side) by (nonlinear_arith)
        requires
            0 <= y < side,
            side > 0,
    ;
    assert((side - 1) * side + side == side * side) by (nonlinear_arith);
}

/// The edge of a board is below 16, as it has at most `MAX_CELLS` cells.
pub proof fn lemma_edge_small(s: Seq<u8>, side: nat)
    requires
        well_formed(s, side),
    ensures
        side < 16,
{
    if side >= 16 {
        assert(side * side >= 256) by (nonlinear_arith)
            requires
                side >= 16,
        ;
    }
}

/// Column and row of index `h`, as `y * side + x == h`.
proof fn lemma_coordinates(h: int, side: int)
    requires
        side > 0,
        h >= 0,
    ensures
        (h / side) * side + h % side == h,
        0 <= h % side < side,
        h / side >= 0,
{
    lemma_fundamental_div_mod(h, side);
    vstd::arithmetic::div_mod::lemma_mod_bound(h, side);
    assert((h / side) * side == side * (h / side)) by (nonlinear_arith);
    assert(h / side >= 0) by (nonlinear_arith)
        requires
            h == side * (h / side) + h % side,
            h % side < side,
            side > 0,
            h >= 0,
    ;
}

/// The hole moved in direction `m` comes back by the opposite move.
pub proof fn lemma_slide_back(s: Seq<u8>, side: nat, m: Move)
    requires
        well_formed(s, side),
        slide(s, side, m) is Some,
    ensures
        slide(slide(s, side, m)->0, side, m.opposite()) == Some(s),
{
    lemma_slide_well_formed(s, side, m);
    let w = side as int;
    let h = position(s, 0);
    let t = neighbour(h, w, m)->0;
    let n = swapped(s, h, t);
    lemma_position_of(s, 0);
    lemma_swapped_permutation(s, h, t);
    assert(n[t] == 0);
    lemma_position_at(n, t);
    lemma_coordinates(h, w);
    let x = h % w;
    let y = h / w;
    match m {
        Move::Left => {
            assert(t == y * w + (x - 1));
            lemma_fundamental_div_mod_converse(t, w, y, x - 1);
        },
        Move::Right => {
            assert(t == y * w + (x + 1));
            lemma_fundamental_div_mod_converse(t, w, y, x + 1);
        },
        Move::Up => {
            assert(t == (y - 1) * w + x) by (nonlinear_arith)
                requires
                    t == h - w,
                    h == y * w + x,
            ;
            lemma_fundamental_div_mod_converse(t, w, y - 1, x);
        },
        Move::Down => {
            assert(t == (y + 1) * w + x) by (nonlinear_arith)
                requires
                    t == h + w,
                    h == y * w + x,
            ;
            lemma_fundamental_div_mod_converse(t, w, y + 1, x);
        },
    }
    assert(neighbour(t, w, m.opposite()) == Some(h));
    assert(swapped(n, t, h) =~= s);
}

/// A board has at least one cell.
pub proof fn lemma_not_empty(s: Seq<u8>, side: nat)
    requires
        well_formed(s, side),
    ensures
        s.len() > 0,
{
    assert(side * side > 0) by (nonlinear_arith)
        requires
            side > 0,
    ;
}

/// `|a - b|`.
pub open spec fn abs_diff(a: int, b: int) -> int {
    if a > b {
        a - b
    } else {
        b - a
    }
}

/// The Manhattan distance between the places of `tile` in `s` and in `g`, on
/// a grid of edge `side`.
pub open spec fn tile_dist(s: Seq<u8>, g: Seq<u8>, side: nat, tile: u8) -> int {
    let p = position(s, tile);
    let q = position(g, tile);
    abs_diff(p % (side as int), q % (side as int)) + abs_diff(p / (side as int), q / (side as int))
}

/// The sum of `tile_dist` over the tiles `1 .. k`.
pub open spec fn dist_below(s: Seq<u8>, g: Seq<u8>, side: nat, k: nat) -> int
    decreases k,
{
    if k <= 1 {
        0
    } else {
        dist_below(s, g, side, (k - 1) as nat) + tile_dist(s, g, side, (k - 1) as u8)
    }
}

/// The sum, over every tile but the hole, of its Manhattan distance from its
/// place in `g`.
pub open spec fn manhattan(s: Seq<u8>, g: Seq<u8>, side: nat) -> int {
    dist_below(s, g, side, s.len())
}

/// Two well-formed boards with the same cells have the same edge.
pub proof fn lemma_edge_determined(s: Seq<u8>, a: nat, b: nat)
    requires
        well_formed(s, a),
        well_formed(s, b),
    ensures
        a == b,
{
    if a < b {
        assert(a * a < b * b) by (nonlinear_arith)
            requires
                a < b,
        ;
    } else if b < a {
        assert(b * b < a * a) by (nonlinear_arith)
            requires
                b < a,
        ;
    }
}

/// The modulus of board fingerprints, a prime below `2^32`.
pub const FINGERPRINT_MODULUS: u64 = 4294967291;

/// A hash of the cells, read as a number in base 31 modulo
/// `FINGERPRINT_MODULUS`: equal cells give equal fingerprints.
pub open spec fn fingerprint_of(s: Seq<u8>) -> u64
    decreases s.len(),
{
    if s.len() == 0 {
        0
    } else {
        ((fingerprint_of(s.drop_last()) as nat * 31 + s.last() as nat) % (FINGERPRINT_MODULUS as nat)) as u64
    }
}

/// The edge of a square with `num_cells` cells, or `None` when `num_cells`
/// is not a square.
fn board_size(num_cells: usize) -> (r: Option<usize>)
    requires
        num_cells <= MAX_CELLS,
    ensures
        r is Some <==> is_square(num_cells as nat),
        r matches Some(k) ==> square(k as nat) == num_cells,
{
    let mut root: usize = 0;
    while root * root < num_cells
        invariant
            num_cells <= MAX_CELLS,
            root <= 16,
            root * root <= 256,
            forall|k: nat| k < root ==> #[trigger] square(k) < num_cells,
        decreases 16 - root,
    {
        assert(square(root as nat) < num_cells);
        assert(root < 16) by (nonlinear_arith)
            requires
                root * root < num_cells,
                num_cells <= 255,
        ;
        assert((root + 1) * (root + 1) <= 256) by (nonlinear_arith)
            requires
                root < 16,
        ;
        root = root + 1;
    }
    assert(square(root as nat) >= num_cells);
    if root * root == num_cells {
        assert(square(root as nat) == num_cells);
        assert(root <= num_cells) by (nonlinear_arith)
            requires
                root * root == num_cells,
        ;
        Some(root)
    } else {
        assert forall|k: nat| k <= num_cells implies #[trigger] square(k) != num_cells by {
            if k >= root {
                assert(k * k >= root * root) by (nonlinear_arith)
                    requires
                        k >= root,
                ;
            }
        }
        None
    }
}

impl Board {
    /// Builds a board from its cells, row by row, with `0` for the hole.
    /// Returns `None` unless the number of cells is a positive square of at
    /// most `MAX_CELLS` and the cells hold each of `0 .. cells.len()` once.
    pub fn from_vec(cells: Vec<u8>) -> (r: Option<Board>)
        ensures
            r is Some <==> (0 < cells@.len() <= MAX_CELLS && is_square(cells@.len())
                && is_permutation(cells@)),
            r matches Some(b) ==> b@ == cells@ && square(b.edge()) == cells@.len(),
    {
        let len = cells.len();
        if len > MAX_CELLS {
            return None;
        }
        let size = match board_size(len) {
            None => return None,
            Some(s) => s,
        };
        assert(square(size as nat) == len);
        if size == 0 {
            assert(square(0nat) == 0) by (nonlinear_arith);
            assert(len == 0);
            return None;
        }
        let mut seen: Vec<bool> = vec![false; len];
        let mut i: usize = 0;
        while i < len
            invariant
                len == cells@.len(),
                len <= MAX_CELLS,
                0 <= i <= len,
                seen@.len() == len,
                forall|k: int| 0 <= k < i ==> (cells@[k] as int) < len,
                forall|a: int, b: int| 0 <= a < i && 0 <= b < i && a != b ==> cells@[a] != cells@[b],
                forall|t: int| 0 <= t < len ==> (#[trigger] seen@[t] <==> exists|k: int|
                    0 <= k < i && cells@[k] as int == t),
            decreases len - i,
        {
            let cell = cells[i];
            if cell as usize >= len {
                return None;
            }
            if seen[cell as usize] {
                return None;
            }
            seen.set(cell as usize, true);
            i = i + 1;
        }
        let mut t: usize = 0;
        while t < len
            invariant
                len == cells@.len(),
                len <= MAX_CELLS,
                0 <= t <= len,
                seen@.len() == len,
                forall|u: int| 0 <= u < len ==> (#[trigger] seen@[u] <==> exists|k: int|
                    0 <= k < len && cells@[k] as int == u),
                forall|u: int| 0 <= u < t ==> #[trigger] seen@[u],
            decreases len - t,
        {
            if !seen[t] {
                assert(!cells@.contains(t as u8)) by {
                    if cells@.contains(t as u8) {
                        let k = choose|k: int| 0 <= k < cells@.len() && cells@[k] == t as u8;
                        assert(cells@[k] as int == t);
                    }
                }
                return None;
            }
            t = t + 1;
        }
        assert forall|u: u8| (u as int) < cells@.len() implies #[trigger] cells@.contains(u) by {
            assert(seen@[u as int]);
            let k = choose|k: int| 0 <= k < len && cells@[k] as int == u as int;
            assert(cells@[k] == u);
        }
        assert(is_permutation(cells@));
        assert(size * size > 0) by (nonlinear_arith)
            requires
                size > 0,
        ;
        Some(Board { cells, side: size })
    }

    /// The edge length.
    pub fn side(&self) -> (r: usize)
        ensures
            r == self.edge(),
    {
        self.side
    }

    /// The index of the cell in column `ix` and row `iy`.
    fn to_linear_index(&self, ix: usize, iy: usize) -> (r: usize)
        requires
            ix < self.edge(),
            iy < self.edge(),
        ensures
            r == iy * self.edge() + ix,
            r < self@.len(),
    {
        proof {
            use_type_invariant(self);
            let side = self.side as int;
            assert(iy * side + ix < side * side) by (nonlinear_arith)
                requires
                    0 <= ix < side,
                    0 <= iy < side,
            ;
        }
        iy * self.side + ix
    }

    /// The column and row of the cell at index `i`.
    fn from_linear_index(&self, i: usize) -> (r: (usize, usize))
        requires
            i < self@.len(),
        ensures
            r.0 == (i as int) % (self.edge() as int),
            r.1 == (i as int) / (self.edge() as int),
            r.0 < self.edge(),
            r.1 < self.edge(),
            r.1 * self.edge() + r.0 == i,
    {
        proof {
            use_type_invariant(self);
            let side = self.side as int;
            let k = i as int;
            lemma_fundamental_div_mod(k, side);
            vstd::arithmetic::div_mod::lemma_mod_bound(k, side);
            assert(k / side < side) by (nonlinear_arith)
                requires
                    k == side * (k / side) + k % side,
                    0 <= k % side < side,
                    k < side * side,
            ;
            assert((k / side) * side == side * (k / side)) by (nonlinear_arith);
        }
        (i % self.side, i / self.side)
    }

    /// The column and row of `tile`.
    fn tile_index(&self, tile: u8) -> (r: (usize, usize))
        requires
            (tile as int) < self@.len(),
        ensures
            r.0 == position(self@, tile) % (self.edge() as int),
            r.1 == position(self@, tile) / (self.edge() as int),
            r.0 < self.edge(),
            r.1 < self.edge(),
            r.1 * self.edge() + r.0 == position(self@, tile),
    {
        proof {
            use_type_invariant(self);
            lemma_position_of(self@, tile);
        }
        let mut i: usize = 0;
        while i < self.cells.len()
            invariant
                well_formed(self.cells@, self.side as nat),
                0 <= i <= self.cells@.len(),
                0 <= position(self.cells@, tile) < self.cells@.len(),
                self.cells@[position(self.cells@, tile)] == tile,
                i <= position(self.cells@, tile),
            decreases self.cells@.len() - i,
        {
            if self.cells[i] == tile {
                proof {
                    lemma_position_at(self.cells@, i as int);
                }
                return self.from_linear_index(i);
            }
            i = i + 1;
        }
        proof {
            assert(false);
        }
        (0, 0)
    }

    /// The column and row of the hole, with the top left cell at `(0, 0)`.
    fn hole_position(&self) -> (r: (usize, usize))
        ensures
            r.0 == position(self@, 0) % (self.edge() as int),
            r.1 == position(self@, 0) / (self.edge() as int),
            r.0 < self.edge(),
            r.1 < self.edge(),
            r.1 * self.edge() + r.0 == position(self@, 0),
    {
        proof {
            use_type_invariant(self);
            lemma_not_empty(self@, self.edge());
        }
        self.tile_index(0)
    }

    /// Whether the moves of `solution`, made in turn, take this board to
    /// `target`: false as soon as one of them would take the hole off the grid.
    pub fn verify(&self, target: &Board, solution: &[Move]) -> (r: bool)
        ensures
            r == (slide_all(self@, self.edge(), solution@) == Some(target@)),
    {
        proof {
            use_type_invariant(self);
            use_type_invariant(target);
        }
        let mut board = self.clone();
        let mut i: usize = 0;
        assert(solution@.skip(0) =~= solution@);
        while i < solution.len()
            invariant
                0 <= i <= solution@.len(),
                board.edge() == self.edge(),
                slide_all(self@, self.edge(), solution@) == slide_all(
                    board@,
                    self.edge(),
                    solution@.skip(i as int),
                ),
            decreases solution@.len() - i,
        {
            let play = solution[i];
            proof {
                let rest = solution@.skip(i as int);
                assert(rest[0] == play);
                assert(rest.drop_first() =~= solution@.skip(i + 1));
            }
            match board.update(play) {
                Some(next) => {
                    board = next;
                },
                None => {
                    return false;
                },
            }
            i = i + 1;
        }
        assert(solution@.skip(i as int) =~= Seq::<Move>::empty());
        proof {
            use_type_invariant(&board);
            if board@ == target@ {
                lemma_edge_determined(target@, board.edge(), target.edge());
            }
        }
        board == *target
    }

    /// An estimate of the number of moves from this board to `goal`: the sum,
    /// over every tile but the hole, of its Manhattan distance from its place
    /// in `goal`. It never exceeds the true number, as a move shifts one tile
    /// by one cell.
    pub fn estimate_cost(&self, goal: &Board) -> (r: usize)
        requires
            goal.edge() == self.edge(),
        ensures
            r == manhattan(self@, goal@, self.edge()),
    {
        proof {
            use_type_invariant(self);
            use_type_invariant(goal);
            lemma_edge_small(self@, self.edge());
            lemma_not_empty(self@, self.edge());
        }
        let n = self.cells.len();
        let mut acc: usize = 0;
        let mut tile: usize = 1;
        while tile < n
            invariant
                n == self@.len(),
                n <= MAX_CELLS,
                self.edge() <= 16,
                goal@.len() == n,
                goal.edge() == self.edge(),
                1 <= tile <= n,
                acc == dist_below(self@, goal@, self.edge(), tile as nat),
                acc <= 32 * tile,
            decreases n - tile,
        {
            let d = self.tile_distance(goal, tile as u8);
            acc = acc + d;
            tile = tile + 1;
        }
        acc
    }

    /// The Manhattan distance between the places of `for_tile` on this board
    /// and on `goal`.
    fn tile_distance(&self, goal: &Board, for_tile: u8) -> (r: usize)
        requires
            goal.edge() == self.edge(),
            (for_tile as int) < self@.len(),
        ensures
            r == tile_dist(self@, goal@, self.edge(), for_tile),
            r <= 32,
    {
        proof {
            use_type_invariant(self);
            use_type_invariant(goal);
            lemma_edge_small(self@, self.edge());
        }
        let (source_x, source_y) = self.tile_index(for_tile);
        let (goal_x, goal_y) = goal.tile_index(for_tile);
        (if source_x > goal_x { source_x - goal_x } else { goal_x - source_x }) + (if source_y
            > goal_y { source_y - goal_y } else { goal_y - source_y })
    }

    /// A hash of the cells, to find the board among others quickly.
    pub fn fingerprint(&self) -> (r: u64)
        ensures
            r == fingerprint_of(self@),
    {
        let mut h: u64 = 0;
        let mut i: usize = 0;
        while i < self.cells.len()
            invariant
                0 <= i <= self.cells@.len(),
                h < FINGERPRINT_MODULUS,
                h == fingerprint_of(self.cells@.take(i as int)),
            decreases self.cells@.len() - i,
        {
            proof {
                let next = self.cells@.take(i + 1);
                assert(next.drop_last() =~= self.cells@.take(i as int));
                assert(next.last() == self.cells@[i as int]);
            }
            h = (h * 31 + self.cells[i] as u64) % FINGERPRINT_MODULUS;
            i = i + 1;
        }
        assert(self.cells@.take(i as int) =~= self.cells@);
        h
    }

    /// The board after the hole moves in direction `command`, or `None` where
    /// the hole would leave the grid. `self` is left as it is.
    pub fn update(&self, command: Move) -> (r: Option<Board>)
        ensures
            r is Some <==> slide(self@, self.edge(), command) is Some,
            r matches Some(b) ==> b@ == slide(self@, self.edge(), command)->0 && b.edge()
                == self.edge(),
    {
        proof {
            use_type_invariant(self);
        }
        let (ix, iy) = self.hole_position();
        let target = match command {
            Move::Left => {
                if ix == 0 {
                    return None;
                }
                self.to_linear_index(ix - 1, iy)
            },
            Move::Right => {
                if ix == self.side - 1 {
                    return None;
                }
                self.to_linear_index(ix + 1, iy)
            },
            Move::Up => {
                if iy == 0 {
                    return None;
                }
                self.to_linear_index(ix, iy - 1)
            },
            Move::Down => {
                if iy == self.side - 1 {
                    return None;
                }
                self.to_linear_index(ix, iy + 1)
            },
        };
        let hole = self.to_linear_index(ix, iy);
        proof {
            let side = self.side as int;
            assert((iy - 1) * side == iy * side - side) by (nonlinear_arith);
            assert((iy + 1) * side == iy * side + side) by (nonlinear_arith);
            assert(neighbour(hole as int, side, command) == Some(target as int));
            lemma_slide_well_formed(self@, self.edge(), command);
        }
        let mut new_cells = self.cells.clone();
        assert(new_cells@ =~= self.cells@);
        let moved = new_cells[target];
        new_cells.set(hole, moved);
        new_cells.set(target, 0);
        proof {
            lemma_position_of(self@, 0);
            assert(new_cells@ =~= swapped(self@, hole as int, target as int));
        }
        Some(Board { cells: new_cells, side: self.side })
    }
}

/// A square board of distinct tiles: `cells` holds each of
/// `0 .. side * side` once, row by row, with `0` for the hole.
#[derive(Debug, Hash)]
pub struct Board {
    cells: Vec<u8>,
    side: usize,
}

impl View for Board {
    type V = Seq<u8>;

    /// The cells, row by row.
    closed spec fn view(&self) -> Seq<u8> {
        self.cells@
    }
}

impl Board {
    /// The edge length.
    pub closed spec fn edge(&self) -> nat {
        self.side as nat
    }

    #[verifier::type_invariant]
    pub(crate) open spec fn inv(&self) -> bool {
        self.wf()
    }

    /// What every board satisfies.
    pub open spec fn wf(&self) -> bool {
        well_formed(self@, self.edge())
    }
}

impl Clone for Board {
    /// A copy of the board.
    fn clone(&self) -> (r: Board)
        ensures
            r@ == self@,
            r.edge() == self.edge(),
    {
        proof {
            use_type_invariant(self);
        }
        let cells = self.cells.clone();
        assert(cells@ =~= self.cells@);
        Board { cells, side: self.side }
    }
}

impl PartialEq for Board {
    /// Boards are equal when their cells and edges are.
    fn eq(&self, other: &Board) -> (r: bool)
        ensures
            r == (self@ == other@ && self.edge() == other.edge()),
    {
        if self.side != other.side || self.cells.len() != other.cells.len() {
            return false;
        }
        let mut i: usize = 0;
        while i < self.cells.len()
            invariant
                self.cells@.len() == other.cells@.len(),
                0 <= i <= self.cells@.len(),
                forall|k: int| 0 <= k < i ==> self.cells@[k] == other.cells@[k],
            decreases self.cells@.len() - i,
        {
            if self.cells[i] != other.cells[i] {
                return false;
            }
            i = i + 1;
        }
        assert(self.cells@ =~= other.cells@);
        true
    }
}

impl vstd::std_specs::cmp::PartialEqSpecImpl for Board {
    open spec fn obeys_eq_spec() -> bool {
        true
    }

    open spec fn eq_spec(&self, other: &Board) -> bool {
        self@ == other@ && self.edge() == other.edge()
    }
}

impl Eq for Board {

}

} // verus!
