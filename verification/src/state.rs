//! The puzzle state model: a 3x3 board holding the tiles `1..=8` and the
//! blank `0`, with the Manhattan-distance heuristic and the blank-move
//! neighbor relation.

use vstd::prelude::*;

verus! {

/// Number of occurrences of `v` in `s`.
pub open spec fn occ(s: Seq<i32>, v: i32) -> nat
    decreases s.len(),
{
    if s.len() == 0 {
        0
    } else {
        occ(s.drop_last(), v) + if s.last() == v {
            1nat
        } else {
            0nat
        }
    }
}

/// A well-formed board: nine cells, each value `0..=8` exactly once.
pub open spec fn wf_board(s: Seq<i32>) -> bool {
    &&& s.len() == 9
    &&& forall|i: int| 0 <= i < 9 ==> 0 <= #[trigger] s[i] < 9
    &&& forall|v: i32| 0 <= v < 9 ==> occ(s, v) == 1
}

/// The canonical solved configuration.
pub open spec fn solved_board() -> Seq<i32> {
    seq![1i32, 2i32, 3i32, 4i32, 5i32, 6i32, 7i32, 8i32, 0i32]
}

/// The unique index of `v` in a well-formed board.
pub open spec fn pos_of(s: Seq<i32>, v: i32) -> int {
    choose|i: int| 0 <= i < s.len() && s[i] == v
}

/// Index of the blank cell.
pub open spec fn blank_of(s: Seq<i32>) -> int {
    pos_of(s, 0)
}

pub open spec fn abs_diff(a: int, b: int) -> int {
    if a >= b {
        a - b
    } else {
        b - a
    }
}

/// Manhattan distance of tile `v` (for `1 <= v <= 8`) from its home cell.
pub open spec fn tile_dist(s: Seq<i32>, v: i32) -> int {
    let p = pos_of(s, v);
    abs_diff(p % 3, (v - 1) % 3) + abs_diff(p / 3, (v - 1) / 3)
}

/// Sum of `tile_dist` over the tiles `1 .. v`.
pub open spec fn md_upto(s: Seq<i32>, v: int) -> int
    decreases v,
{
    if v <= 1 {
        0
    } else {
        md_upto(s, v - 1) + tile_dist(s, (v - 1) as i32)
    }
}

/// The Manhattan-distance heuristic: sum over all eight tiles.
pub open spec fn md(s: Seq<i32>) -> int {
    md_upto(s, 9)
}

// ---------------------------------------------------------------------------
// Occurrence-count lemmas
// ---------------------------------------------------------------------------

/// `occ` is positive exactly when the value appears somewhere.
proof fn lemma_occ_pos(s: Seq<i32>, v: i32)
    ensures
        occ(s, v) > 0 <==> exists|i: int| 0 <= i < s.len() && s[i] == v,
    decreases s.len(),
{
    if s.len() == 0 {
    } else {
        lemma_occ_pos(s.drop_last(), v);
        if s.last() == v {
            assert(s[s.len() - 1] == v);
        } else {
            if exists|i: int| 0 <= i < s.len() && s[i] == v {
                let i = choose|i: int| 0 <= i < s.len() && s[i] == v;
                assert(i < s.len() - 1);
                assert(s.drop_last()[i] == v);
            }
            if occ(s, v) > 0 {
                let i = choose|i: int| 0 <= i < s.drop_last().len() && s.drop_last()[i] == v;
                assert(s[i] == v);
            }
        }
    }
}

/// A value occurring at most once cannot sit at two distinct indices.
proof fn lemma_occ_unique(s: Seq<i32>, v: i32, i: int, j: int)
    requires
        occ(s, v) <= 1,
        0 <= i < s.len(),
        0 <= j < s.len(),
        s[i] == v,
        s[j] == v,
    ensures
        i == j,
    decreases s.len(),
{
    if i != j {
        if i < s.len() - 1 && j < s.len() - 1 {
            assert(s.drop_last()[i] == v);
            assert(s.drop_last()[j] == v);
            assert(occ(s, v) >= occ(s.drop_last(), v));
            lemma_occ_unique(s.drop_last(), v, i, j);
        } else {
            let k = if i < s.len() - 1 {
                i
            } else {
                j
            };
            assert(s.drop_last()[k] == v);
            lemma_occ_pos(s.drop_last(), v);
            assert(occ(s.drop_last(), v) > 0);
            assert(s.last() == v);
            assert(occ(s, v) >= 2);
        }
    }
}

/// If `v` sits at index `i` and nowhere else, it occurs exactly once.
proof fn lemma_occ_one(s: Seq<i32>, v: i32, i: int)
    requires
        0 <= i < s.len(),
        s[i] == v,
        forall|j: int| 0 <= j < s.len() && j != i ==> s[j] != v,
    ensures
        occ(s, v) == 1,
    decreases s.len(),
{
    if i == s.len() - 1 {
        lemma_occ_pos(s.drop_last(), v);
        if occ(s.drop_last(), v) > 0 {
            let j = choose|j: int| 0 <= j < s.drop_last().len() && s.drop_last()[j] == v;
            assert(s[j] == v);
        }
        assert(occ(s.drop_last(), v) == 0);
    } else {
        assert(s.drop_last()[i] == v);
        assert(forall|j: int|
            0 <= j < s.drop_last().len() && j != i ==> s.drop_last()[j] != v) by {
            assert(forall|j: int| 0 <= j < s.len() - 1 ==> s.drop_last()[j] == s[j]);
        }
        lemma_occ_one(s.drop_last(), v, i);
        assert(s.last() != v);
    }
}

/// How one `update` changes an occurrence count.
proof fn lemma_occ_update(s: Seq<i32>, i: int, x: i32, v: i32)
    requires
        0 <= i < s.len(),
    ensures
        occ(s.update(i, x), v) == occ(s, v) - (if s[i] == v {
            1int
        } else {
            0int
        }) + (if x == v {
            1int
        } else {
            0int
        }),
    decreases s.len(),
{
    let t = s.update(i, x);
    assert(t.len() == s.len());
    if i == s.len() - 1 {
        assert(t.drop_last() =~= s.drop_last());
        assert(t.last() == x);
        assert(s.last() == s[i]);
    } else {
        assert(t.drop_last() =~= s.drop_last().update(i, x));
        assert(t.last() == s.last());
        lemma_occ_update(s.drop_last(), i, x, v);
        assert(s.drop_last()[i] == s[i]);
    }
}

// ---------------------------------------------------------------------------
// Positions
// ---------------------------------------------------------------------------

/// In a well-formed board, `pos_of` is the one index holding `v`.
proof fn lemma_pos_of(s: Seq<i32>, v: i32)
    requires
        wf_board(s),
        0 <= v < 9,
    ensures
        0 <= pos_of(s, v) < 9,
        s[pos_of(s, v)] == v,
        forall|i: int| 0 <= i < 9 && s[i] == v ==> i == pos_of(s, v),
{
    lemma_occ_pos(s, v);
    assert(occ(s, v) > 0);
    let p = pos_of(s, v);
    assert(0 <= p < s.len() && s[p] == v);
    assert forall|i: int| 0 <= i < 9 && s[i] == v implies i == p by {
        lemma_occ_unique(s, v, i, p);
    }
}

// ---------------------------------------------------------------------------
// Moves
// ---------------------------------------------------------------------------

/// `s` with the cells at `i` and `j` exchanged.
pub open spec fn swap_seq(s: Seq<i32>, i: int, j: int) -> Seq<i32> {
    s.update(i, s[j]).update(j, s[i])
}

/// Swapping two distinct cells preserves well-formedness.
proof fn lemma_swap_wf(s: Seq<i32>, i: int, j: int)
    requires
        wf_board(s),
        0 <= i < 9,
        0 <= j < 9,
        i != j,
    ensures
        wf_board(swap_seq(s, i, j)),
{
    let u = s.update(i, s[j]);
    let t = swap_seq(s, i, j);
    assert forall|v: i32| 0 <= v < 9 implies occ(t, v) == 1 by {
        lemma_occ_update(s, i, s[j], v);
        lemma_occ_update(u, j, s[i], v);
        assert(u[j] == s[j]);
    }
}

/// Cells `i` and `j` share a grid edge (one blank-move apart).
pub open spec fn adjacent(i: int, j: int) -> bool {
    &&& 0 <= i < 9
    &&& 0 <= j < 9
    &&& ((j == i - 3 && i >= 3) || (j == i + 3 && i < 6) || (j == i - 1 && i % 3 > 0) || (j == i
        + 1 && i % 3 < 2))
}

/// `b` arises from `a` by sliding one tile into the blank.
pub open spec fn is_move(a: Seq<i32>, b: Seq<i32>) -> bool {
    &&& wf_board(a)
    &&& exists|t: int| adjacent(blank_of(a), t) && b == swap_seq(a, blank_of(a), t)
}

/// The four blank-move directions, in the fixed generation order.
#[derive(Debug, Clone, Copy, PartialEq, Eq, Structural)]
pub enum Dir {
    Up,
    Down,
    Left,
    Right,
}

impl Dir {
    /// All four directions, in generation order.
    pub fn all() -> (r: Vec<Dir>)
        ensures
            r@ =~= seq![Dir::Up, Dir::Down, Dir::Left, Dir::Right],
    {
        let mut v: Vec<Dir> = Vec::new();
        v.push(Dir::Up);
        v.push(Dir::Down);
        v.push(Dir::Left);
        v.push(Dir::Right);
        v
    }
}

/// Cell the blank would move to, or `None` when the move leaves the grid.
pub open spec fn dir_target(s: Seq<i32>, d: Dir) -> Option<int> {
    let b = blank_of(s);
    match d {
        Dir::Up => if b >= 3 {
            Some(b - 3)
        } else {
            None
        },
        Dir::Down => if b < 6 {
            Some(b + 3)
        } else {
            None
        },
        Dir::Left => if b % 3 > 0 {
            Some(b - 1)
        } else {
            None
        },
        Dir::Right => if b % 3 < 2 {
            Some(b + 1)
        } else {
            None
        },
    }
}

/// The board after moving the blank in direction `d`, when in bounds.
pub open spec fn dir_move(s: Seq<i32>, d: Dir) -> Option<Seq<i32>> {
    match dir_target(s, d) {
        Some(t) => Some(swap_seq(s, blank_of(s), t)),
        None => None,
    }
}

pub open spec fn opt_row(o: Option<Seq<i32>>) -> Seq<Seq<i32>> {
    match o {
        Some(b) => seq![b],
        None => Seq::empty(),
    }
}

/// The neighbor boards, in the fixed direction order up, down, left, right.
pub open spec fn neighbors_spec(s: Seq<i32>) -> Seq<Seq<i32>> {
    opt_row(dir_move(s, Dir::Up)) + opt_row(dir_move(s, Dir::Down)) + opt_row(
        dir_move(s, Dir::Left),
    ) + opt_row(dir_move(s, Dir::Right))
}

// ---------------------------------------------------------------------------
// The state type
// ---------------------------------------------------------------------------

/// One puzzle configuration: `board` lists the cells row-major,
/// with `0` for the blank.
#[derive(Debug, Eq, PartialEq, Ord, PartialOrd, Hash)]
pub struct State {
    pub board: Vec<i32>,
}

impl View for State {
    type V = Seq<i32>;

    open spec fn view(&self) -> Seq<i32> {
        self.board@
    }
}

impl Clone for State {
    fn clone(&self) -> (r: Self)
        ensures
            r@ == self@,
    {
        let mut b: Vec<i32> = Vec::new();
        let mut i: usize = 0;
        while i < self.board.len()
            invariant
                i <= self.board.len(),
                b@ =~= self.board@.take(i as int),
            decreases self.board.len() - i,
        {
            b.push(self.board[i]);
            i = i + 1;
        }
        proof {
            assert(b@ =~= self.board@);
        }
        State { board: b }
    }
}

impl State {
    /// Coordinates `(x, y)` of the first cell holding `num`, scanning
    /// row-major; `None` when `num` is absent from the board.
    pub fn get_pos(&self, num: i32) -> (r: Option<(usize, usize)>)
        ensures
            match r {
                Some(p) => {
                    let idx = p.1 as int * 3 + p.0 as int;
                    &&& p.0 < 3
                    &&& 0 <= idx && idx < self@.len()
                    &&& self@[idx] == num
                    &&& forall|j: int| 0 <= j < idx ==> self@[j] != num
                },
                None => forall|j: int| 0 <= j < self@.len() ==> self@[j] != num,
            },
    {
        let mut i: usize = 0;
        while i < self.board.len()
            invariant
                i <= self.board.len(),
                forall|j: int| 0 <= j < i ==> self@[j] != num,
            decreases self.board.len() - i,
        {
            if self.board[i] == num {
                proof {
                    vstd::arithmetic::div_mod::lemma_fundamental_div_mod(i as int, 3);
                }
                return Some((i % 3, i / 3));
            }
            i = i + 1;
        }
        None
    }

    /// Manhattan distance of tile `num` from its home cell.
    pub fn target_dis(&self, num: i32) -> (r: i32)
        requires
            wf_board(self@),
            1 <= num < 9,
        ensures
            r == tile_dist(self@, num),
            0 <= r <= 4,
    {
        proof {
            lemma_pos_of(self@, num);
        }
        match self.get_pos(num) {
            Some((x, y)) => {
                proof {
                    let idx = y as int * 3 + x as int;
                    assert(idx == pos_of(self@, num));
                    vstd::arithmetic::div_mod::lemma_fundamental_div_mod_converse(
                        idx,
                        3,
                        y as int,
                        x as int,
                    );
                }
                let tx = (num - 1) % 3;
                let ty = (num - 1) / 3;
                let xi = x as i32;
                let yi = y as i32;
                let dx = if xi >= tx {
                    xi - tx
                } else {
                    tx - xi
                };
                let dy = if yi >= ty {
                    yi - ty
                } else {
                    ty - yi
                };
                dx + dy
            },
            None => {
                proof {
                    assert(self@[pos_of(self@, num)] == num);
                    assert(false);
                }
                0
            },
        }
    }

    /// The Manhattan-distance heuristic: sum over all eight tiles of the
    /// distance from the tile's cell to its home cell.
    pub fn manhattan_dis(&self) -> (r: i32)
        requires
            wf_board(self@),
        ensures
            r == md(self@),
            0 <= r <= 32,
    {
        let mut total: i32 = 0;
        let mut v: i32 = 1;
        while v < 9
            invariant
                wf_board(self@),
                1 <= v <= 9,
                total == md_upto(self@, v as int),
                0 <= total <= 4 * (v - 1),
            decreases 9 - v,
        {
            let d = self.target_dis(v);
            total = total + d;
            v = v + 1;
        }
        total
    }

    /// The configuration reached by moving the blank (at `zero_pos`, given as
    /// `(x, y)`) one cell in direction `dir`, or `None` when that leaves the
    /// grid.
    pub fn move_dir(&self, dir: &Dir, zero_pos: (usize, usize)) -> (r: Option<State>)
        requires
            wf_board(self@),
            zero_pos.0 < 3,
            zero_pos.1 < 3,
            self@[zero_pos.1 as int * 3 + zero_pos.0 as int] == 0,
        ensures
            r is Some <==> dir_move(self@, *dir) is Some,
            r matches Some(st) ==> {
                &&& Some(st@) == dir_move(self@, *dir)
                &&& wf_board(st@)
                &&& is_move(self@, st@)
            },
    {
        let (x0, y0) = zero_pos;
        let b0 = y0 * 3 + x0;
        proof {
            lemma_pos_of(self@, 0);
            assert(b0 as int == blank_of(self@));
            vstd::arithmetic::div_mod::lemma_fundamental_div_mod_converse(
                b0 as int,
                3,
                y0 as int,
                x0 as int,
            );
        }
        let t: usize = match dir {
            Dir::Up => {
                if y0 == 0 {
                    return None;
                }
                b0 - 3
            },
            Dir::Down => {
                if y0 >= 2 {
                    return None;
                }
                b0 + 3
            },
            Dir::Left => {
                if x0 == 0 {
                    return None;
                }
                b0 - 1
            },
            Dir::Right => {
                if x0 >= 2 {
                    return None;
                }
                b0 + 1
            },
        };
        let c = self.clone();
        let mut nb = c.board;
        let vt = nb[t];
        nb[b0] = vt;
        nb[t] = 0;
        let st = State { board: nb };
        proof {
            assert(st@ =~= swap_seq(self@, b0 as int, t as int));
            lemma_swap_wf(self@, b0 as int, t as int);
            let bl = blank_of(self@);
            assert(adjacent(bl, t as int));
            assert(is_move(self@, st@)) by {
                assert(adjacent(blank_of(self@), t as int) && st@ == swap_seq(
                    self@,
                    blank_of(self@),
                    t as int,
                ));
            }
        }
        Some(st)
    }

    /// The configurations one blank-move away, in the fixed direction order
    /// up, down, left, right.
    pub fn neighbors(&self) -> (r: Vec<State>)
        requires
            wf_board(self@),
        ensures
            r@.map_values(|st: State| st@) == neighbors_spec(self@),
            forall|k: int|
                0 <= k < r@.len() ==> wf_board(#[trigger] r@[k]@) && is_move(self@, r@[k]@),
    {
        proof {
            lemma_pos_of(self@, 0);
        }
        let zp = match self.get_pos(0) {
            Some(p) => p,
            None => {
                proof {
                    assert(self@[pos_of(self@, 0)] == 0);
                    assert(false);
                }
                (0, 0)
            },
        };
        let mut out: Vec<State> = Vec::new();
        match self.move_dir(&Dir::Up, zp) {
            Some(st) => out.push(st),
            None => {},
        }
        match self.move_dir(&Dir::Down, zp) {
            Some(st) => out.push(st),
            None => {},
        }
        match self.move_dir(&Dir::Left, zp) {
            Some(st) => out.push(st),
            None => {},
        }
        match self.move_dir(&Dir::Right, zp) {
            Some(st) => out.push(st),
            None => {},
        }
        proof {
            assert(out@.map_values(|st: State| st@) =~= neighbors_spec(self@));
        }
        out
    }
}

// ---------------------------------------------------------------------------
// Laws of the heuristic and of the move relation
// ---------------------------------------------------------------------------

/// The solved configuration is well-formed.
pub proof fn lemma_solved_wf()
    ensures
        wf_board(solved_board()),
{
    let s = solved_board();
    assert forall|v: i32| 0 <= v < 9 implies occ(s, v) == 1 by {
        let i: int = if v == 0 {
            8
        } else {
            v - 1
        };
        assert(s[i] == v);
        lemma_occ_one(s, v, i);
    }
}

proof fn lemma_tile_dist_zero(s: Seq<i32>, v: i32)
    requires
        wf_board(s),
        1 <= v < 9,
    ensures
        tile_dist(s, v) == 0 <==> s[v - 1] == v,
        tile_dist(s, v) >= 0,
{
    lemma_pos_of(s, v);
    let p = pos_of(s, v);
    vstd::arithmetic::div_mod::lemma_fundamental_div_mod(p, 3);
    vstd::arithmetic::div_mod::lemma_fundamental_div_mod((v - 1) as int, 3);
    if tile_dist(s, v) == 0 {
        assert(p % 3 == (v - 1) % 3 && p / 3 == (v - 1) / 3);
        assert(p == v - 1);
    }
    if s[v - 1] == v {
        assert(p == v - 1);
    }
}

proof fn lemma_md_upto_nonneg(s: Seq<i32>, v: int)
    requires
        wf_board(s),
        v <= 9,
    ensures
        md_upto(s, v) >= 0,
    decreases v,
{
    if v > 1 {
        lemma_md_upto_nonneg(s, v - 1);
        lemma_tile_dist_zero(s, (v - 1) as i32);
    }
}

proof fn lemma_md_upto_zero(s: Seq<i32>, v: int)
    requires
        wf_board(s),
        v <= 9,
        md_upto(s, v) == 0,
    ensures
        forall|w: int| 1 <= w < v ==> #[trigger] tile_dist(s, w as i32) == 0,
    decreases v,
{
    if v > 1 {
        lemma_md_upto_nonneg(s, v - 1);
        lemma_tile_dist_zero(s, (v - 1) as i32);
        lemma_md_upto_zero(s, v - 1);
    }
}

/// The heuristic vanishes exactly on the solved configuration.
pub proof fn lemma_md_zero_iff_solved(s: Seq<i32>)
    requires
        wf_board(s),
    ensures
        md(s) == 0 <==> s == solved_board(),
{
    if md(s) == 0 {
        lemma_md_upto_zero(s, 9);
        assert forall|v: i32| 1 <= v < 9 implies #[trigger] s[v - 1] == v by {
            assert(tile_dist(s, (v as int) as i32) == 0);
            lemma_tile_dist_zero(s, v);
        }
        assert(s[8] == 0) by {
            if s[8] != 0 {
                let v = s[8];
                assert(1 <= v < 9);
                assert(s[v - 1] == v);
                lemma_occ_unique(s, v, 8, v - 1);
            }
        }
        assert forall|i: int| 0 <= i < 9 implies s[i] == solved_board()[i] by {
            if i < 8 {
                let v = (i + 1) as i32;
                assert(s[v - 1] == v);
            }
        }
        assert(s =~= solved_board());
    }
    if s == solved_board() {
        assert forall|w: int| 1 <= w < 9 implies #[trigger] tile_dist(s, w as i32) == 0 by {
            let v = w as i32;
            assert(s[w - 1] == v);
            lemma_tile_dist_zero(s, v);
        }
        assert(md_upto(s, 1) == 0);
        assert(md_upto(s, 2) == 0);
        assert(md_upto(s, 3) == 0);
        assert(md_upto(s, 4) == 0);
        assert(md_upto(s, 5) == 0);
        assert(md_upto(s, 6) == 0);
        assert(md_upto(s, 7) == 0);
        assert(md_upto(s, 8) == 0);
        assert(md_upto(s, 9) == 0);
    }
}

/// A board has 2, 3 or 4 neighbors: 2 with the blank in a corner, 3 with the
/// blank on an edge, 4 with the blank in the center.
pub proof fn lemma_neighbor_count(s: Seq<i32>)
    requires
        wf_board(s),
    ensures
        ({
            let b = blank_of(s);
            let n = neighbors_spec(s).len();
            &&& 2 <= n <= 4
            &&& ((b == 0 || b == 2 || b == 6 || b == 8) ==> n == 2)
            &&& ((b == 1 || b == 3 || b == 5 || b == 7) ==> n == 3)
            &&& (b == 4 ==> n == 4)
        }),
{
    lemma_pos_of(s, 0);
    let b = blank_of(s);
    assert(0 <= b < 9);
    if b == 0 || b == 1 || b == 2 {
        assert(b % 3 == b);
    } else if b == 3 || b == 4 || b == 5 {
        assert(b % 3 == b - 3);
    } else {
        assert(b % 3 == b - 6);
    }
}

/// Every move from a well-formed board appears among its neighbors.
pub proof fn lemma_move_in_neighbors(s: Seq<i32>, b: Seq<i32>)
    requires
        wf_board(s),
        is_move(s, b),
    ensures
        neighbors_spec(s).contains(b),
{
    let bl = blank_of(s);
    let t = choose|t: int| adjacent(bl, t) && b == swap_seq(s, bl, t);
    let ns = neighbors_spec(s);
    let r1 = opt_row(dir_move(s, Dir::Up));
    let r2 = opt_row(dir_move(s, Dir::Down));
    let r3 = opt_row(dir_move(s, Dir::Left));
    let r4 = opt_row(dir_move(s, Dir::Right));
    if t == bl - 3 && bl >= 3 {
        assert(ns[0] == b);
        assert(0 <= 0 < ns.len() && ns[0] == b);
    } else if t == bl + 3 && bl < 6 {
        let i = r1.len() as int;
        assert(ns[i] == b);
        assert(0 <= i < ns.len() && ns[i] == b);
    } else if t == bl - 1 && bl % 3 > 0 {
        let i = (r1.len() + r2.len()) as int;
        assert(ns[i] == b);
        assert(0 <= i < ns.len() && ns[i] == b);
    } else {
        assert(t == bl + 1 && bl % 3 < 2);
        let i = (r1.len() + r2.len() + r3.len()) as int;
        assert(ns[i] == b);
        assert(0 <= i < ns.len() && ns[i] == b);
    }
}

proof fn lemma_md_upto_move_bound(a: Seq<i32>, b: Seq<i32>, vt: i32, v: int)
    requires
        wf_board(a),
        wf_board(b),
        1 <= vt < 9,
        v <= 9,
        forall|w: i32| 1 <= w < 9 && w != vt ==> #[trigger] tile_dist(b, w) == tile_dist(a, w),
        tile_dist(b, vt) >= tile_dist(a, vt) - 1,
    ensures
        md_upto(b, v) >= md_upto(a, v) - 1,
    decreases v,
{
    if v > 1 {
        lemma_md_upto_move_bound(a, b, vt, v - 1);
        if (v - 1) as i32 != vt {
            assert(tile_dist(b, (v - 1) as i32) == tile_dist(a, (v - 1) as i32));
        } else {
            lemma_md_upto_same_but(a, b, vt, v - 1);
        }
    }
}

/// Below the moved tile's value the per-tile distances agree, so the
/// partial sums do.
proof fn lemma_md_upto_same_but(a: Seq<i32>, b: Seq<i32>, vt: i32, v: int)
    requires
        1 <= vt < 9,
        v <= vt,
        forall|w: i32| 1 <= w < 9 && w != vt ==> #[trigger] tile_dist(b, w) == tile_dist(a, w),
    ensures
        md_upto(b, v) == md_upto(a, v),
    decreases v,
{
    if v > 1 {
        lemma_md_upto_same_but(a, b, vt, v - 1);
        assert(tile_dist(b, (v - 1) as i32) == tile_dist(a, (v - 1) as i32));
    }
}

/// One move lowers the heuristic by at most one.
pub proof fn lemma_md_move_bound(a: Seq<i32>, b: Seq<i32>)
    requires
        is_move(a, b),
    ensures
        md(b) >= md(a) - 1,
{
    let bl = blank_of(a);
    let t = choose|t: int| adjacent(bl, t) && b == swap_seq(a, bl, t);
    lemma_pos_of(a, 0);
    lemma_swap_wf(a, bl, t);
    let vt = a[t];
    assert(b[bl] == vt && b[t] == 0);
    assert(vt != 0) by {
        if a[t] == 0 {
            lemma_occ_unique(a, 0, t, bl);
        }
    }
    assert(1 <= vt < 9);
    assert forall|w: i32| 1 <= w < 9 && w != vt implies #[trigger] tile_dist(b, w) == tile_dist(
        a,
        w,
    ) by {
        lemma_pos_of(a, w);
        lemma_pos_of(b, w);
        let p = pos_of(a, w);
        assert(p != bl && p != t);
        assert(b[p] == w);
        assert(pos_of(b, w) == p);
    }
    assert(tile_dist(b, vt) >= tile_dist(a, vt) - 1) by {
        lemma_pos_of(a, vt);
        lemma_pos_of(b, vt);
        assert(pos_of(a, vt) == t);
        assert(pos_of(b, vt) == bl);
        vstd::arithmetic::div_mod::lemma_fundamental_div_mod(bl, 3);
        vstd::arithmetic::div_mod::lemma_fundamental_div_mod(t, 3);
        if t == bl - 3 || t == bl + 3 {
            assert(t % 3 == bl % 3 && abs_diff(t / 3, bl / 3) == 1) by (nonlinear_arith)
                requires
                    0 <= bl < 9,
                    0 <= t < 9,
                    t == bl - 3 || t == bl + 3,
            ;
        } else {
            assert(t / 3 == bl / 3 && abs_diff(t % 3, bl % 3) == 1) by (nonlinear_arith)
                requires
                    0 <= bl < 9,
                    0 <= t < 9,
                    (t == bl - 1 && bl % 3 > 0) || (t == bl + 1 && bl % 3 < 2),
            ;
        }
    }
    lemma_md_upto_move_bound(a, b, vt, 9);
}

/// Moves are reversible: the reached board is well-formed, moving back is a
/// move, the original board is among the reached board's neighbors, and the
/// two boards differ in exactly two adjacent cells (the blank and the slid
/// tile).
pub proof fn lemma_move_reversible(a: Seq<i32>, b: Seq<i32>)
    requires
        is_move(a, b),
    ensures
        wf_board(b),
        is_move(b, a),
        neighbors_spec(b).contains(a),
        exists|i: int, j: int|
            {
                &&& adjacent(i, j)
                &&& a[i] != a[j]
                &&& b[i] == a[j] && b[j] == a[i]
                &&& forall|k: int| 0 <= k < 9 && k != i && k != j ==> b[k] == a[k]
            },
{
    let bl = blank_of(a);
    let t = choose|t: int| adjacent(bl, t) && b == swap_seq(a, bl, t);
    lemma_pos_of(a, 0);
    assert(a[bl] == 0);
    assert(t != bl);
    lemma_swap_wf(a, bl, t);
    assert(wf_board(b));
    assert(a[t] != 0) by {
        if a[t] == 0 {
            lemma_occ_unique(a, 0, t, bl);
        }
    }
    assert(b[t] == 0 && b[bl] == a[t]);
    lemma_pos_of(b, 0);
    assert(blank_of(b) == t);
    assert(adjacent(t, bl)) by {
        vstd::arithmetic::div_mod::lemma_fundamental_div_mod(bl, 3);
        vstd::arithmetic::div_mod::lemma_fundamental_div_mod(t, 3);
    }
    assert(a =~= swap_seq(b, t, bl));
    assert(is_move(b, a)) by {
        assert(adjacent(blank_of(b), bl) && a == swap_seq(b, blank_of(b), bl));
    }
    lemma_move_in_neighbors(b, a);
    assert({
        &&& adjacent(bl, t)
        &&& a[bl] != a[t]
        &&& b[bl] == a[t] && b[t] == a[bl]
        &&& forall|k: int| 0 <= k < 9 && k != bl && k != t ==> b[k] == a[k]
    });
}

} // verus!
