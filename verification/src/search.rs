//! The A* search engine: frontier expansion over the move graph, best-known
//! cost and predecessor bookkeeping per visited configuration, and path
//! reconstruction.

use crate::frontier::Frontier;
use crate::frontier::Item;
use crate::frontier::total;
use crate::state::State;
use crate::state::adjacent;
use crate::state::is_move;
use crate::state::lemma_md_move_bound;
use crate::state::lemma_md_zero_iff_solved;
use crate::state::lemma_move_in_neighbors;
use crate::state::lemma_move_reversible;
use crate::state::lemma_solved_wf;
use crate::state::md;
use crate::state::neighbors_spec;
use crate::state::solved_board;
use crate::state::wf_board;
use std::collections::HashMap;
use std::collections::VecDeque;
use vstd::prelude::*;

verus! {

broadcast use vstd::std_specs::hash::group_hash_axioms;

// ---------------------------------------------------------------------------
// Packing a board into one integer key
// ---------------------------------------------------------------------------

/// `16^n`.
spec fn pw16(n: int) -> int
    decreases n,
{
    if n <= 0 {
        1
    } else {
        16 * pw16(n - 1)
    }
}

/// A board packed as an integer, four bits per cell.
pub open spec fn enc(s: Seq<i32>) -> int
    decreases s.len(),
{
    if s.len() == 0 {
        0
    } else {
        enc(s.drop_last()) * 16 + s.last()
    }
}

/// The packed board as a map key.
pub open spec fn enc64(s: Seq<i32>) -> u64 {
    enc(s) as u64
}

proof fn lemma_enc_bounds(s: Seq<i32>)
    requires
        forall|i: int| 0 <= i < s.len() ==> 0 <= #[trigger] s[i] < 16,
    ensures
        0 <= enc(s) < pw16(s.len() as int),
    decreases s.len(),
{
    if s.len() > 0 {
        assert(forall|i: int|
            0 <= i < s.drop_last().len() ==> 0 <= #[trigger] s.drop_last()[i] < 16);
        lemma_enc_bounds(s.drop_last());
        assert(0 <= s.last() < 16);
    }
}

proof fn lemma_pw16_9()
    ensures
        pw16(9) == 0x1000000000,
{
    assert(pw16(0) == 1);
    assert(pw16(1) == 16);
    assert(pw16(2) == 0x100);
    assert(pw16(3) == 0x1000);
    assert(pw16(4) == 0x10000);
    assert(pw16(5) == 0x100000);
    assert(pw16(6) == 0x1000000);
    assert(pw16(7) == 0x10000000);
    assert(pw16(8) == 0x100000000);
}

/// Packing is injective on boards of equal length with small cells.
proof fn lemma_enc_inj(a: Seq<i32>, b: Seq<i32>)
    requires
        a.len() == b.len(),
        forall|i: int| 0 <= i < a.len() ==> 0 <= #[trigger] a[i] < 16,
        forall|i: int| 0 <= i < b.len() ==> 0 <= #[trigger] b[i] < 16,
        enc(a) == enc(b),
    ensures
        a == b,
    decreases a.len(),
{
    if a.len() == 0 {
        assert(a =~= b);
    } else {
        let ad = a.drop_last();
        let bd = b.drop_last();
        assert(forall|i: int| 0 <= i < ad.len() ==> 0 <= #[trigger] ad[i] < 16);
        assert(forall|i: int| 0 <= i < bd.len() ==> 0 <= #[trigger] bd[i] < 16);
        lemma_enc_bounds(ad);
        lemma_enc_bounds(bd);
        vstd::arithmetic::div_mod::lemma_fundamental_div_mod_converse(
            enc(a),
            16,
            enc(ad),
            a.last() as int,
        );
        vstd::arithmetic::div_mod::lemma_fundamental_div_mod_converse(
            enc(b),
            16,
            enc(bd),
            b.last() as int,
        );
        assert(a.last() == b.last());
        assert(enc(ad) == enc(bd));
        lemma_enc_inj(ad, bd);
        assert forall|i: int| 0 <= i < a.len() implies a[i] == b[i] by {
            if i < a.len() - 1 {
                assert(a[i] == ad[i]);
                assert(b[i] == bd[i]);
            }
        }
        assert(a =~= b);
    }
}

/// Well-formed boards with the same key are the same board.
proof fn lemma_enc64_inj(a: Seq<i32>, b: Seq<i32>)
    requires
        wf_board(a),
        wf_board(b),
        enc64(a) == enc64(b),
    ensures
        a == b,
{
    lemma_enc_bounds(a);
    lemma_enc_bounds(b);
    lemma_pw16_9();
    lemma_enc_inj(a, b);
}

/// A move changes the board, so it changes the packed key.
proof fn lemma_move_changes_code(s: Seq<i32>, n: Seq<i32>)
    requires
        is_move(s, n),
    ensures
        enc64(n) != enc64(s),
        wf_board(n),
{
    lemma_move_reversible(s, n);
    assert(n != s) by {
        let (bi, bj) = choose|i: int, j: int|
            {
                &&& adjacent(i, j)
                &&& s[i] != s[j]
                &&& n[i] == s[j] && n[j] == s[i]
                &&& forall|kk: int| 0 <= kk < 9 && kk != i && kk != j ==> n[kk] == s[kk]
            };
        assert(n[bi] != s[bi]);
    }
    if enc64(n) == enc64(s) {
        lemma_enc64_inj(n, s);
    }
}

/// The key of a well-formed board, computed cell by cell.
fn state_code(st: &State) -> (r: u64)
    requires
        wf_board(st@),
    ensures
        r == enc64(st@),
        r as int == enc(st@),
        r < 0x1000000000u64,
{
    proof {
        lemma_pw16_9();
    }
    let mut r: u64 = 0;
    let mut i: usize = 0;
    while i < st.board.len()
        invariant
            wf_board(st@),
            i <= 9,
            r as int == enc(st@.take(i as int)),
            0 <= (r as int) && (r as int) < pw16(i as int),
            pw16(9) == 0x1000000000,
    decreases st.board.len() - i,
    {
        proof {
            let pre = st@.take(i as int);
            let post = st@.take(i as int + 1);
            assert(post.drop_last() =~= pre);
            assert(post.last() == st@[i as int]);
            assert(pw16(i as int + 1) == 16 * pw16(i as int));
            assert(pw16(i as int + 1) <= pw16(9)) by {
                assert(pw16(i as int + 2) >= 16 * pw16(i as int + 1) >= pw16(i as int + 1)) by {
                    lemma_pw16_pos(i as int + 1);
                }
                lemma_pw16_mono(i as int + 1, 9);
            }
        }
        r = r * 16 + (st.board[i] as u64);
        i = i + 1;
    }
    proof {
        assert(st@.take(9) =~= st@);
    }
    r
}

proof fn lemma_pw16_pos(n: int)
    ensures
        pw16(n) >= 1,
    decreases n,
{
    if n > 0 {
        lemma_pw16_pos(n - 1);
    }
}

proof fn lemma_pw16_mono(a: int, b: int)
    requires
        a <= b,
    ensures
        pw16(a) <= pw16(b),
    decreases b - a,
{
    if a < b {
        lemma_pw16_mono(a, b - 1);
        lemma_pw16_pos(b - 1);
    }
}

// ---------------------------------------------------------------------------
// Reachability
// ---------------------------------------------------------------------------

/// `p` is a sequence of single moves leading from `a` to `b`.
pub open spec fn is_path(p: Seq<Seq<i32>>, a: Seq<i32>, b: Seq<i32>) -> bool {
    &&& p.len() >= 1
    &&& p[0] == a
    &&& p.last() == b
    &&& forall|i: int| 0 <= i < p.len() - 1 ==> is_move(#[trigger] p[i], p[i + 1])
}

/// Some sequence of moves leads from `s` to the solved configuration.
pub open spec fn solvable(s: Seq<i32>) -> bool {
    exists|p: Seq<Seq<i32>>| is_path(p, s, solved_board())
}

proof fn lemma_md_suffix_bound(p: Seq<Seq<i32>>, i: int)
    requires
        p.len() >= 1,
        0 <= i < p.len(),
        p.last() == solved_board(),
        forall|j: int| 0 <= j < p.len() - 1 ==> is_move(#[trigger] p[j], p[j + 1]),
    ensures
        md(p[i]) <= p.len() - 1 - i,
    decreases p.len() - i,
{
    if i == p.len() - 1 {
        lemma_solved_wf();
        lemma_md_zero_iff_solved(p[i]);
    } else {
        assert(is_move(p[i], p[i + 1]));
        lemma_md_move_bound(p[i], p[i + 1]);
        lemma_md_suffix_bound(p, i + 1);
    }
}

/// The Manhattan-distance heuristic is admissible: it never overestimates
/// the move count of any solution of `s`.
pub proof fn lemma_md_admissible(p: Seq<Seq<i32>>, s: Seq<i32>)
    requires
        is_path(p, s, solved_board()),
    ensures
        md(s) <= p.len() - 1,
{
    lemma_md_suffix_bound(p, 0);
}

/// A key set closed under the move relation.
spec fn closed_under_moves(dm: Set<u64>) -> bool {
    forall|b: Seq<i32>, n: Seq<i32>|
        #![trigger dm.contains(enc64(b)), is_move(b, n)]
        dm.contains(enc64(b)) && wf_board(b) && is_move(b, n) ==> dm.contains(enc64(n))
}

/// No board keyed in the set has heuristic zero.
spec fn goal_free(dm: Set<u64>) -> bool {
    forall|b: Seq<i32>| #[trigger] dm.contains(enc64(b)) && wf_board(b) ==> md(b) != 0
}

proof fn lemma_path_stays(dm: Set<u64>, p: Seq<Seq<i32>>, i: int)
    requires
        closed_under_moves(dm),
        0 <= i < p.len(),
        wf_board(p[0]),
        dm.contains(enc64(p[0])),
        forall|j: int| 0 <= j < p.len() - 1 ==> is_move(#[trigger] p[j], p[j + 1]),
    ensures
        wf_board(p[i]),
        dm.contains(enc64(p[i])),
    decreases i,
{
    if i > 0 {
        lemma_path_stays(dm, p, i - 1);
        assert(is_move(p[i - 1], p[i]));
        lemma_move_reversible(p[i - 1], p[i]);
    }
}

/// From a start keyed in a move-closed, goal-free set, no move sequence
/// reaches the solved configuration.
proof fn lemma_unsolvable(start: Seq<i32>, dm: Set<u64>)
    requires
        wf_board(start),
        dm.contains(enc64(start)),
        closed_under_moves(dm),
        goal_free(dm),
    ensures
        !solvable(start),
{
    if solvable(start) {
        let p = choose|p: Seq<Seq<i32>>| is_path(p, start, solved_board());
        lemma_path_stays(dm, p, p.len() - 1);
        lemma_solved_wf();
        lemma_md_zero_iff_solved(solved_board());
        assert(md(solved_board()) == 0);
        assert(false);
    }
}

// ---------------------------------------------------------------------------
// Counting: key-set cardinality and summed costs, for termination
// ---------------------------------------------------------------------------

/// A finite set of keys below `n` has at most `n` elements.
proof fn lemma_card_bound(s: Set<u64>, n: int)
    requires
        s.finite(),
        0 <= n <= 0xffffffffffffffff,
        forall|k: u64| s.contains(k) ==> (k as int) < n,
    ensures
        s.len() <= n,
    decreases n,
{
    if n == 0 {
        assert(s =~= Set::empty());
    } else {
        let x = (n - 1) as u64;
        let s2 = s.remove(x);
        assert(forall|k: u64| s2.contains(k) ==> (k as int) < n - 1);
        lemma_card_bound(s2, n - 1);
        if s.contains(x) {
            assert(s2.len() == s.len() - 1);
        } else {
            assert(s2 =~= s);
        }
    }
}

// ---------------------------------------------------------------------------
// Path reconstruction
// ---------------------------------------------------------------------------

/// `b`'s recorded predecessor is exactly `a`.
#[verifier::opaque]
pub open spec fn chain_link(pm: Map<u64, Option<State>>, a: State, b: State) -> bool {
    match pm[enc64(b@)] {
        Option::Some(p) => p@ == a@,
        Option::None => false,
    }
}

/// The predecessor map's edges run along moves, into the map, and strictly
/// down some nonnegative rank (so following them terminates).
pub open spec fn pred_edges_ok(pm: Map<u64, Option<State>>, rank: Map<u64, int>) -> bool {
    forall|c: u64| #[trigger] pm.dom().contains(c) ==> {
        &&& rank.dom().contains(c) && rank[c] >= 0
        &&& match pm[c] {
            Option::Some(p) => {
                &&& wf_board(p@)
                &&& pm.dom().contains(enc64(p@))
                &&& rank[enc64(p@)] < rank[c]
                &&& exists|b: Seq<i32>| wf_board(b) && enc64(b) == c && is_move(p@, b)
            },
            Option::None => true,
        }
    }
}

pub open spec fn pred_map_ok(pm: Map<u64, Option<State>>) -> bool {
    exists|rank: Map<u64, int>| pred_edges_ok(pm, rank)
}

/// Walk the predecessor chain back from `goal`, producing the recorded
/// states in start-to-goal order; the first returned state is the one whose
/// recorded predecessor is `None`.
#[verifier::rlimit(100)]
pub fn get_path(previous: HashMap<u64, Option<State>>, goal: State) -> (r: VecDeque<State>)
    requires
        wf_board(goal@),
        previous@.dom().contains(enc64(goal@)),
        pred_map_ok(previous@),
    ensures
        r@.len() >= 1,
        r@[r@.len() - 1]@ == goal@,
        forall|i: int|
            0 <= i < r@.len() ==> wf_board(#[trigger] r@[i]@) && previous@.dom().contains(
                enc64(r@[i]@),
            ),
        forall|i: int| 0 <= i < r@.len() - 1 ==> is_move(#[trigger] r@[i]@, r@[i + 1]@),
        forall|i: int|
            0 <= i < r@.len() - 1 ==> #[trigger] chain_link(previous@, r@[i], r@[i + 1]),
        previous@[enc64(r@[0]@)] is None,
{
    let ghost rank = choose|rk: Map<u64, int>| pred_edges_ok(previous@, rk);
    let ghost gb = goal@;
    let mut path: VecDeque<State> = VecDeque::new();
    path.push_front(goal.clone());
    let mut g = goal;
    let mut done = false;
    while !done
        invariant
            pred_edges_ok(previous@, rank),
            wf_board(g@),
            previous@.dom().contains(enc64(g@)),
            path@.len() >= 1,
            path@[0]@ == g@,
            path@[path@.len() - 1]@ == gb,
            forall|i: int|
                0 <= i < path@.len() ==> wf_board(#[trigger] path@[i]@)
                    && previous@.dom().contains(enc64(path@[i]@)),
            forall|i: int|
                0 <= i < path@.len() - 1 ==> #[trigger] chain_link(previous@, path@[i], path@[i + 1]),
            done ==> previous@[enc64(g@)] is None,
        decreases rank[enc64(g@)], (if done {
            0int
        } else {
            1int
        }),
    {
        let gc = state_code(&g);
        match previous.get(&gc) {
            Some(opt) => match opt {
                Some(st) => {
                    proof {
                        assert(previous@[gc] == Option::Some(*st));
                    }
                    let ghost path0 = path@;
                    let stc = st.clone();
                    path.push_front(stc);
                    proof {
                        assert forall|i: int|
                            0 <= i < path@.len() - 1 implies #[trigger] chain_link(
                            previous@,
                            path@[i],
                            path@[i + 1],
                        ) by {
                            reveal(chain_link);
                            if i == 0 {
                                assert(path@[1] == path0[0]);
                                assert(path@[1]@ == g@ && enc64(path@[1]@) == gc);
                                assert(path@[0]@ == st@);
                                assert(previous@[enc64(path@[1]@)] == Option::Some(*st));
                                assert(chain_link(previous@, path@[0], path@[1]));
                            } else {
                                let j = i - 1;
                                assert(path@[i] == path0[j] && path@[i + 1] == path0[j + 1]);
                                assert(chain_link(previous@, path0[j], path0[j + 1]));
                                assert(chain_link(previous@, path@[i], path@[i + 1]));
                            }
                        }
                    }
                    g = st.clone();
                },
                None => {
                    done = true;
                },
            },
            None => {
                proof {
                    assert(false);
                }
                done = true;
            },
        }
    }
    proof {
        assert forall|i: int| 0 <= i < path@.len() - 1 implies is_move(
            #[trigger] path@[i]@,
            path@[i + 1]@,
        ) by {
            reveal(chain_link);
            assert(chain_link(previous@, path@[i], path@[i + 1]));
            let c = enc64(path@[i + 1]@);
            assert(previous@.dom().contains(c));
            match previous@[c] {
                Option::Some(p) => {
                    let b = choose|b: Seq<i32>| wf_board(b) && enc64(b) == c && is_move(p@, b);
                    lemma_enc64_inj(b, path@[i + 1]@);
                },
                Option::None => {},
            }
        }
    }
    path
}

/// The recorded keys all lie below `16^9`, so there are at most that many.
proof fn lemma_dom_bound(cost: Map<u64, usize>)
    requires
        cost.dom().finite(),
        keys_ok(cost),
    ensures
        cost.dom().len() <= 0x1000000000,
{
    assert forall|k: u64| cost.dom().contains(k) implies (k as int) < 0x1000000000 by {
        let b = choose|b: Seq<i32>| wf_board(b) && enc64(b) == k;
        lemma_enc_bounds(b);
        lemma_pw16_9();
    }
    lemma_card_bound(cost.dom(), 0x1000000000);
}

/// Sum of all values in a cost map.
spec fn msum(m: Map<u64, usize>) -> int
    decreases m.dom().len(),
    when m.dom().finite()
{
    if m.dom().len() == 0 {
        0
    } else {
        let k = m.dom().choose();
        m[k] + msum(m.remove(k))
    }
}

proof fn lemma_msum_remove(m: Map<u64, usize>, k: u64)
    requires
        m.dom().finite(),
        m.dom().contains(k),
    ensures
        msum(m) == m[k] + msum(m.remove(k)),
    decreases m.dom().len(),
{
    let c = m.dom().choose();
    assert(m.dom().len() > 0);
    assert(m.dom().contains(c));
    if c == k {
        assert(m.remove(c) =~= m.remove(k));
    } else {
        let m1 = m.remove(c);
        lemma_msum_remove(m1, k);
        lemma_msum_remove(m.remove(k), c);
        assert(m.remove(k).remove(c) =~= m1.remove(k));
        assert(m.remove(k)[c] == m[c]);
        assert(m1[k] == m[k]);
    }
}

proof fn lemma_msum_nonneg(m: Map<u64, usize>)
    requires
        m.dom().finite(),
    ensures
        msum(m) >= 0,
    decreases m.dom().len(),
{
    if m.dom().len() > 0 {
        let k = m.dom().choose();
        lemma_msum_nonneg(m.remove(k));
    }
}

proof fn lemma_msum_insert(m: Map<u64, usize>, k: u64, v: usize)
    requires
        m.dom().finite(),
    ensures
        msum(m.insert(k, v)) == if m.dom().contains(k) {
            msum(m) - m[k] + v
        } else {
            msum(m) + v
        },
{
    let m2 = m.insert(k, v);
    assert(m2.dom() =~= m.dom().insert(k));
    lemma_msum_remove(m2, k);
    if m.dom().contains(k) {
        assert(m2.remove(k) =~= m.remove(k));
        lemma_msum_remove(m, k);
    } else {
        assert(m2.remove(k) =~= m);
    }
}

// ---------------------------------------------------------------------------
// The A* search
// ---------------------------------------------------------------------------

/// Every recorded key is the key of some well-formed board.
spec fn keys_ok(cost: Map<u64, usize>) -> bool {
    forall|c: u64| #[trigger] cost.dom().contains(c) ==> exists|b: Seq<i32>|
        wf_board(b) && enc64(b) == c
}

/// Every recorded cost is below the number of recorded keys.
spec fn costs_bounded(cost: Map<u64, usize>) -> bool {
    forall|c: u64| #[trigger] cost.dom().contains(c) ==> (cost[c] as int) < cost.dom().len()
        as int
}

/// The cost and predecessor records agree: same keys; the start is recorded
/// at cost zero with no predecessor; every other recorded predecessor edge
/// is a move, runs inside the records, and strictly lowers the cost.
spec fn prev_ok(pm: Map<u64, Option<State>>, cost: Map<u64, usize>, start: Seq<i32>) -> bool {
    &&& pm.dom() == cost.dom()
    &&& cost.dom().contains(enc64(start))
    &&& cost[enc64(start)] == 0
    &&& forall|c: u64| #[trigger] pm.dom().contains(c) ==> match pm[c] {
        Option::Some(p) => {
            &&& wf_board(p@)
            &&& cost.dom().contains(enc64(p@))
            &&& (cost[enc64(p@)] as int) < cost[c] as int
            &&& exists|b: Seq<i32>| wf_board(b) && enc64(b) == c && is_move(p@, b)
        },
        Option::None => c == enc64(start),
    }
}

/// Every frontier entry carries a well-formed, cost-recorded state.
spec fn frontier_ok(fv: Seq<Seq<Item>>, cost: Map<u64, usize>) -> bool {
    forall|p: int, j: int|
        0 <= p < fv.len() && 0 <= j < fv[p].len() ==> wf_board((#[trigger] fv[p][j]).1@)
            && cost.dom().contains(enc64(fv[p][j].1@))
}

/// Every recorded state not yet expanded still sits in the frontier.
spec fn unpopped_in_frontier(
    cost: Map<u64, usize>,
    popped: Set<u64>,
    fv: Seq<Seq<Item>>,
) -> bool {
    forall|c: u64| #[trigger] cost.dom().contains(c) && !popped.contains(c) ==> exists|p: int, j: int|
        0 <= p < fv.len() && 0 <= j < fv[p].len() && enc64(fv[p][j].1@) == c
}

/// Every move out of an expanded state leads to a recorded state.
spec fn popped_closed(popped: Set<u64>, cost: Map<u64, usize>) -> bool {
    forall|b: Seq<i32>, n: Seq<i32>|
        #![trigger popped.contains(enc64(b)), is_move(b, n)]
        popped.contains(enc64(b)) && wf_board(b) && is_move(b, n) ==> cost.dom().contains(
            enc64(n),
        )
}

/// No expanded state was the goal.
spec fn popped_no_goal(popped: Set<u64>) -> bool {
    forall|b: Seq<i32>| #[trigger] popped.contains(enc64(b)) && wf_board(b) ==> md(b) != 0
}

/// When the frontier has emptied, every recorded state has been expanded,
/// so the records are closed under moves and hold no goal: nothing solvable
/// was recorded, in particular not the start.
proof fn lemma_search_exhausted(
    sb: Seq<i32>,
    cost: Map<u64, usize>,
    popped: Set<u64>,
    fv: Seq<Seq<Item>>,
)
    requires
        wf_board(sb),
        cost.dom().contains(enc64(sb)),
        unpopped_in_frontier(cost, popped, fv),
        popped_closed(popped, cost),
        popped_no_goal(popped),
        forall|p: int| 0 <= p < fv.len() ==> fv[p].len() == 0,
    ensures
        !solvable(sb),
{
    assert forall|c: u64| path_dom_trig(cost.dom(), c) implies popped.contains(c) by {
        if cost.dom().contains(c) && !popped.contains(c) {
            let (p, j) = choose|p: int, j: int|
                0 <= p < fv.len() && 0 <= j < fv[p].len() && enc64(fv[p][j].1@) == c;
            assert(fv[p].len() == 0);
        }
    }
    assert(closed_under_moves(cost.dom())) by {
        assert forall|b: Seq<i32>, n: Seq<i32>|
            #![trigger cost.dom().contains(enc64(b)), is_move(b, n)]
            cost.dom().contains(enc64(b)) && wf_board(b) && is_move(b, n) implies cost.dom()
            .contains(enc64(n)) by {
            assert(path_dom_trig(cost.dom(), enc64(b)));
            assert(popped.contains(enc64(b)));
        }
    }
    assert(goal_free(cost.dom())) by {
        assert forall|b: Seq<i32>| #[trigger] cost.dom().contains(enc64(b)) && wf_board(
            b,
        ) implies md(b) != 0 by {
            assert(path_dom_trig(cost.dom(), enc64(b)));
            assert(popped.contains(enc64(b)));
        }
    }
    lemma_unsolvable(sb, cost.dom());
}

/// Trigger marker for quantifying over recorded keys.
spec fn path_dom_trig(dm: Set<u64>, c: u64) -> bool {
    dm.contains(c)
}

/// The cost map itself ranks the predecessor edges.
proof fn lemma_prev_gives_rank(pm: Map<u64, Option<State>>, cost: Map<u64, usize>, sb: Seq<i32>)
    requires
        prev_ok(pm, cost, sb),
    ensures
        pred_map_ok(pm),
{
    let rankw = cost.map_values(|v: usize| v as int);
    assert(pred_edges_ok(pm, rankw)) by {
        assert(rankw.dom() =~= cost.dom());
    }
}

/// Recording an improved cost and predecessor for the move target `nb`
/// preserves the record invariants.
proof fn lemma_relax_records(
    prev0: Map<u64, Option<State>>,
    cost0: Map<u64, usize>,
    sb: Seq<i32>,
    s: State,
    nb: State,
    cs: usize,
    new_cost: usize,
    sclone: State,
)
    requires
        prev_ok(prev0, cost0, sb),
        costs_bounded(cost0),
        keys_ok(cost0),
        cost0.dom().finite(),
        wf_board(s@),
        cost0.dom().contains(enc64(s@)),
        cost0[enc64(s@)] == cs,
        new_cost == cs + 1,
        wf_board(nb@),
        is_move(s@, nb@),
        enc64(nb@) != enc64(s@),
        cost0.dom().contains(enc64(nb@)) ==> (new_cost as int) < cost0[enc64(nb@)] as int,
        sclone@ == s@,
    ensures
        ({
            let ncode = enc64(nb@);
            let cost1 = cost0.insert(ncode, new_cost);
            let prev1 = prev0.insert(ncode, Option::Some(sclone));
            &&& prev_ok(prev1, cost1, sb)
            &&& costs_bounded(cost1)
            &&& keys_ok(cost1)
            &&& cost1.dom().finite()
            &&& cost1.dom() =~= cost0.dom().insert(ncode)
            &&& (cost0.dom().contains(ncode) ==> cost1.dom() =~= cost0.dom() && msum(cost1)
                <= msum(cost0) - 1)
            &&& (!cost0.dom().contains(ncode) ==> cost1.dom().len() == cost0.dom().len() + 1
                && msum(cost1) == msum(cost0) + new_cost)
        }),
{
    let ncode = enc64(nb@);
    let scode = enc64(s@);
    let cost1 = cost0.insert(ncode, new_cost);
    let prev1 = prev0.insert(ncode, Option::Some(sclone));
    lemma_msum_insert(cost0, ncode, new_cost);
    assert(cost1.dom() =~= cost0.dom().insert(ncode));
    if cost0.dom().contains(ncode) {
        assert(cost1.dom() =~= cost0.dom());
    }
    assert(keys_ok(cost1)) by {
        assert forall|c: u64| #[trigger] cost1.dom().contains(c) implies exists|b: Seq<i32>|
            wf_board(b) && enc64(b) == c by {
            if c == ncode {
                assert(wf_board(nb@) && enc64(nb@) == c);
            } else {
                assert(cost0.dom().contains(c));
            }
        }
    }
    assert(costs_bounded(cost1)) by {
        assert forall|c: u64| #[trigger] cost1.dom().contains(c) implies (cost1[c] as int)
            < cost1.dom().len() as int by {
            if c == ncode {
                if cost0.dom().contains(ncode) {
                    assert((new_cost as int) < cost0[ncode] as int);
                } else {
                    assert(cost1.dom().len() == cost0.dom().len() + 1);
                    assert((cs as int) < cost0.dom().len() as int);
                }
            } else {
                assert(cost0.dom().contains(c));
                assert(cost1.dom().len() >= cost0.dom().len());
            }
        }
    }
    assert(prev_ok(prev1, cost1, sb)) by {
        assert(enc64(sb) != ncode) by {
            if enc64(sb) == ncode {
                assert(cost0.dom().contains(ncode));
                assert(cost0[enc64(sb)] == 0);
            }
        }
        assert(prev1.dom() =~= cost1.dom());
        assert forall|c: u64| #[trigger] prev1.dom().contains(c) implies match prev1[c] {
            Option::Some(p) => {
                &&& wf_board(p@)
                &&& cost1.dom().contains(enc64(p@))
                &&& (cost1[enc64(p@)] as int) < cost1[c] as int
                &&& exists|b: Seq<i32>| wf_board(b) && enc64(b) == c && is_move(p@, b)
            },
            Option::None => c == enc64(sb),
        } by {
            if c == ncode {
                assert(prev1[c] == Option::Some(sclone));
                assert(cost1[scode] == cs) by {
                    assert(scode != ncode);
                }
                assert(wf_board(nb@) && enc64(nb@) == c && is_move(sclone@, nb@));
            } else {
                assert(prev0.dom().contains(c));
                assert(prev1[c] == prev0[c]);
                match prev0[c] {
                    Option::Some(p) => {
                        assert(cost0.dom().contains(enc64(p@)));
                        if enc64(p@) == ncode {
                            assert((new_cost as int) < cost0[ncode] as int);
                        }
                    },
                    Option::None => {},
                }
            }
        }
    }
}

/// Termination measure for the search loop: rewards recording new keys
/// (at most `16^9` exist), lowering recorded costs, and shrinking the
/// frontier.
spec fn search_measure(cost: Map<u64, usize>, fv: Seq<Seq<Item>>) -> int {
    (0x1000000000 - cost.dom().len() as int) * 0x2000000100 + 2 * msum(cost) + total(fv)
}


/// Removing the last entry of bucket `itp` (an entry carrying key `scode`)
/// keeps the frontier well-formed, and keeps a frontier witness for every
/// recorded key not expanded yet, once `scode` counts as expanded.
proof fn lemma_after_pop(
    cost: Map<u64, usize>,
    popped: Set<u64>,
    fv0: Seq<Seq<Item>>,
    fv1: Seq<Seq<Item>>,
    itp: int,
    scode: u64,
)
    requires
        frontier_ok(fv0, cost),
        unpopped_in_frontier(cost, popped, fv0),
        0 <= itp < fv0.len(),
        fv0[itp].len() > 0,
        enc64(fv0[itp][fv0[itp].len() - 1].1@) == scode,
        fv1 == fv0.update(itp, fv0[itp].drop_last()),
    ensures
        frontier_ok(fv1, cost),
        unpopped_in_frontier(cost, popped.insert(scode), fv1),
{
    assert(frontier_ok(fv1, cost)) by {
        assert forall|p: int, j: int|
            0 <= p < fv1.len() && 0 <= j < fv1[p].len() implies wf_board(
            (#[trigger] fv1[p][j]).1@) && cost.dom().contains(enc64(fv1[p][j].1@)) by {
            assert(fv1[p][j] == fv0[p][j]);
        }
    }
    assert(unpopped_in_frontier(cost, popped.insert(scode), fv1)) by {
        assert forall|c: u64|
            #[trigger] cost.dom().contains(c) && !popped.insert(scode).contains(
            c) implies exists|p: int, j: int|
            0 <= p < fv1.len() && 0 <= j < fv1[p].len() && enc64(fv1[p][j].1@) == c by {
            let (p, j) = choose|p: int, j: int|
                0 <= p < fv0.len() && 0 <= j < fv0[p].len() && enc64(fv0[p][j].1@) == c;
            if p == itp && j == fv0[itp].len() - 1 {
                assert(false);
            } else {
                assert(fv1[p][j] == fv0[p][j]);
                assert(0 <= p < fv1.len() && 0 <= j < fv1[p].len() && enc64(fv1[p][j].1@)
                    == c);
            }
        }
    }
}

/// Expand one popped state: relax each neighbor, recording improved costs
/// and predecessors and pushing them onto the frontier. Afterwards the
/// records are closed under the moves out of the expanded state, and the
/// search measure has not grown.
#[verifier::rlimit(100)]
fn expand(
    frontier: &mut Frontier,
    previous: &mut HashMap<u64, Option<State>>,
    path_cost: &mut HashMap<u64, usize>,
    s: &State,
    Ghost(sb): Ghost<Seq<i32>>,
    Ghost(popped): Ghost<Set<u64>>,
)
    requires
        wf_board(sb),
        old(frontier).inv(),
        old(path_cost)@.dom().finite(),
        keys_ok(old(path_cost)@),
        costs_bounded(old(path_cost)@),
        prev_ok(old(previous)@, old(path_cost)@, sb),
        frontier_ok(old(frontier)@, old(path_cost)@),
        popped.subset_of(old(path_cost)@.dom()),
        unpopped_in_frontier(old(path_cost)@, popped.insert(enc64(s@)), old(frontier)@),
        popped_closed(popped, old(path_cost)@),
        popped_no_goal(popped),
        wf_board(s@),
        md(s@) != 0,
        old(path_cost)@.dom().contains(enc64(s@)),
    ensures
        ({
            let popped1 = popped.insert(enc64(s@));
            &&& final(frontier).inv()
            &&& final(path_cost)@.dom().finite()
            &&& keys_ok(final(path_cost)@)
            &&& costs_bounded(final(path_cost)@)
            &&& prev_ok(final(previous)@, final(path_cost)@, sb)
            &&& frontier_ok(final(frontier)@, final(path_cost)@)
            &&& popped1.subset_of(final(path_cost)@.dom())
            &&& unpopped_in_frontier(final(path_cost)@, popped1, final(frontier)@)
            &&& popped_closed(popped1, final(path_cost)@)
            &&& popped_no_goal(popped1)
            &&& search_measure(final(path_cost)@, final(frontier)@) <= search_measure(
                old(path_cost)@,
                old(frontier)@,
            )
        }),
{
    let ghost m_snap = search_measure(path_cost@, frontier@);
    let nbrs = s.neighbors();
    let scode = state_code(s);
    // reading the length pins the record count below usize::MAX, so the
    // cost increment below cannot overflow
    let _map_len: usize = path_cost.len();
    let cs: usize = match path_cost.get(&scode) {
        Some(c) => *c,
        None => {
            proof {
                assert(false);
            }
            0
        },
    };
    proof {
        lemma_dom_bound(path_cost@);
    }
    let new_cost = cs + 1;
    let mut k: usize = 0;
    while k < nbrs.len()
        invariant
            wf_board(sb),
            wf_board(s@),
            md(s@) != 0,
            frontier.inv(),
            path_cost@.dom().finite(),
            keys_ok(path_cost@),
            costs_bounded(path_cost@),
            prev_ok(previous@, path_cost@, sb),
            frontier_ok(frontier@, path_cost@),
            popped.subset_of(path_cost@.dom()),
            unpopped_in_frontier(path_cost@, popped.insert(enc64(s@)), frontier@),
            popped_closed(popped, path_cost@),
            popped_no_goal(popped),
            k <= nbrs@.len(),
            nbrs@.map_values(|st: State| st@) == neighbors_spec(s@),
            forall|j: int|
                0 <= j < nbrs@.len() ==> wf_board(#[trigger] nbrs@[j]@) && is_move(
                    s@,
                    nbrs@[j]@,
                ),
            forall|j: int|
                0 <= j < k ==> path_cost@.dom().contains(
                    enc64(#[trigger] nbrs@[j]@),
                ),
            scode == enc64(s@),
            path_cost@.dom().contains(scode),
            path_cost@[scode] == cs,
            new_cost == cs + 1,
            search_measure(path_cost@, frontier@) <= m_snap,
        decreases nbrs@.len() - k,
    {
        let n = &nbrs[k];
        let ncode = state_code(n);
        let hn = n.manhattan_dis();
        proof {
            lemma_move_reversible(s@, n@);
            lemma_move_changes_code(s@, n@);
            lemma_dom_bound(path_cost@);
        }
        let relax: bool = match path_cost.get(&ncode) {
            None => true,
            Some(c) => *c > new_cost,
        };
        if relax {
            let ghost cost0 = path_cost@;
            let ghost prev0 = previous@;
            let ghost fvpre = frontier@;
            let sclone = s.clone();
            proof {
                lemma_relax_records(
                    prev0,
                    cost0,
                    sb,
                    *s,
                    *n,
                    cs,
                    new_cost,
                    sclone,
                );
            }
            previous.insert(ncode, Some(sclone));
            path_cost.insert(ncode, new_cost);
            let pri = if new_cost <= usize::MAX - 32 {
                new_cost + (hn as usize)
            } else {
                usize::MAX
            };
            let nclone = n.clone();
            frontier.push(Item(pri, nclone));
            proof {
                assert(frontier_ok(frontier@, path_cost@)) by {
                    assert forall|p: int, j: int|
                        0 <= p < frontier@.len() && 0 <= j < frontier@[p].len()
                        implies wf_board((#[trigger] frontier@[p][j]).1@)
                        && path_cost@.dom().contains(enc64(frontier@[p][j].1@)) by {
                        if p == pri as int && j == frontier@[p].len() - 1 {
                            assert(frontier@[p][j] == Item(pri, nclone));
                        } else {
                            assert(0 <= p < fvpre.len() && 0 <= j < fvpre[p].len()
                                && frontier@[p][j] == fvpre[p][j]);
                            assert(cost0.dom().contains(enc64(fvpre[p][j].1@)));
                        }
                    }
                }
                assert(unpopped_in_frontier(
                    path_cost@,
                    popped.insert(enc64(s@)),
                    frontier@,
                )) by {
                    assert forall|c: u64|
                        #[trigger] path_cost@.dom().contains(c) && !popped.insert(
                        enc64(s@)).contains(c) implies exists|p: int, j: int|
                        0 <= p < frontier@.len() && 0 <= j < frontier@[p].len()
                            && enc64(frontier@[p][j].1@) == c by {
                        if c == ncode {
                            let p = pri as int;
                            let j = frontier@[p].len() - 1;
                            assert(frontier@[p][j] == Item(pri, nclone));
                            assert(enc64(frontier@[p][j].1@) == c);
                        } else {
                            assert(cost0.dom().contains(c));
                            let (p, j) = choose|p: int, j: int|
                                0 <= p < fvpre.len() && 0 <= j < fvpre[p].len()
                                    && enc64(fvpre[p][j].1@) == c;
                            assert(frontier@[p][j] == fvpre[p][j]);
                            assert(0 <= p < frontier@.len() && 0 <= j
                                < frontier@[p].len() && enc64(
                                frontier@[p][j].1@) == c);
                        }
                    }
                }
                assert(search_measure(path_cost@, frontier@) <= m_snap) by {
                    assert(total(frontier@) == total(fvpre) + 1);
                    if cost0.dom().contains(ncode) {
                        assert(path_cost@.dom() =~= cost0.dom());
                        assert(msum(path_cost@) <= msum(cost0) - 1);
                    } else {
                        assert(path_cost@.dom().len() == cost0.dom().len() + 1);
                        assert(msum(path_cost@) == msum(cost0) + new_cost);
                        assert((new_cost as int) <= cost0.dom().len() as int);
                        assert(cost0.dom().len() as int <= 0x1000000000);
                    }
                }
                assert(popped_closed(popped, path_cost@)) by {
                    assert forall|b: Seq<i32>, n2: Seq<i32>|
                        #![trigger popped.contains(enc64(b)), is_move(b, n2)]
                        popped.contains(enc64(b)) && wf_board(b) && is_move(
                        b, n2) implies path_cost@.dom().contains(enc64(n2)) by {
                        assert(cost0.dom().contains(enc64(n2)));
                    }
                }
            }
        }
        k = k + 1;
    }
    proof {
        let popped1 = popped.insert(enc64(s@));
        assert(popped_closed(popped1, path_cost@)) by {
            assert forall|b: Seq<i32>, n2: Seq<i32>|
                #![trigger popped1.contains(enc64(b)), is_move(b, n2)]
                popped1.contains(enc64(b)) && wf_board(b) && is_move(
                    b,
                    n2,
                ) implies path_cost@.dom().contains(enc64(n2)) by {
                if enc64(b) == enc64(s@) {
                    lemma_enc64_inj(b, s@);
                    lemma_move_in_neighbors(s@, n2);
                    let j = choose|j: int|
                        0 <= j < neighbors_spec(s@).len() && neighbors_spec(s@)[j] == n2;
                    assert(nbrs@[j]@ == n2);
                } else {
                    assert(popped.contains(enc64(b)));
                }
            }
        }
        assert(popped_no_goal(popped1)) by {
            assert forall|b: Seq<i32>|
                #[trigger] popped1.contains(enc64(b)) && wf_board(b) implies md(b) != 0 by {
                if enc64(b) == enc64(s@) {
                    lemma_enc64_inj(b, s@);
                } else {
                    assert(popped.contains(enc64(b)));
                }
            }
        }
    }
}

/// Reconstruct the answer once a zero-heuristic state has been dequeued.
fn finish(
    previous: HashMap<u64, Option<State>>,
    s: State,
    Ghost(sb): Ghost<Seq<i32>>,
    Ghost(cost): Ghost<Map<u64, usize>>,
) -> (r: VecDeque<State>)
    requires
        wf_board(sb),
        wf_board(s@),
        md(s@) == 0,
        prev_ok(previous@, cost, sb),
        cost.dom().contains(enc64(s@)),
    ensures
        r@.len() >= 1,
        r@[0]@ == sb,
        r@[r@.len() - 1]@ == solved_board(),
        forall|i: int| 0 <= i < r@.len() ==> wf_board(#[trigger] r@[i]@),
        forall|i: int| 0 <= i < r@.len() - 1 ==> is_move(#[trigger] r@[i]@, r@[i + 1]@),
        solvable(sb),
{
    proof {
        lemma_md_zero_iff_solved(s@);
        lemma_prev_gives_rank(previous@, cost, sb);
    }
    let path = get_path(previous, s);
    proof {
        assert(previous@[enc64(path@[0]@)] is None);
        assert(enc64(path@[0]@) == enc64(sb));
        lemma_enc64_inj(path@[0]@, sb);
        let w = path@.map_values(|st: State| st@);
        assert(is_path(w, sb, solved_board())) by {
            assert(w.len() == path@.len());
            assert(w[0] == path@[0]@);
            assert(w[w.len() - 1] == path@[path@.len() - 1]@);
            assert forall|i: int| 0 <= i < w.len() - 1 implies is_move(
                #[trigger] w[i],
                w[i + 1],
            ) by {
                assert(w[i] == path@[i]@ && w[i + 1] == path@[i + 1]@);
            }
        }
    }
    path
}

/// A* search from `start` toward the solved configuration, with the
/// Manhattan-distance heuristic and unit move costs.
///
/// A returned path starts at `start`, ends at the solved configuration, and
/// advances by one legal move per step; `None` is returned exactly when no
/// move sequence solves `start`, after the finite reachable state space is
/// exhausted.
#[verifier::rlimit(100)]
pub fn find_path(start: State) -> (r: Option<VecDeque<State>>)
    requires
        wf_board(start@),
    ensures
        match r {
            Option::Some(path) => {
                &&& path@.len() >= 1
                &&& path@[0]@ == start@
                &&& path@[path@.len() - 1]@ == solved_board()
                &&& forall|i: int| 0 <= i < path@.len() ==> wf_board(#[trigger] path@[i]@)
                &&& forall|i: int|
                    0 <= i < path@.len() - 1 ==> is_move(#[trigger] path@[i]@, path@[i + 1]@)
                &&& solvable(start@)
            },
            Option::None => !solvable(start@),
        },
{
    let ghost sb = start@;
    let mut frontier = Frontier::new();
    let mut previous: HashMap<u64, Option<State>> = HashMap::new();
    let mut path_cost: HashMap<u64, usize> = HashMap::new();
    let ghost mut popped: Set<u64> = Set::empty();

    let h0 = start.manhattan_dis();
    let c0 = state_code(&start);
    previous.insert(c0, None);
    path_cost.insert(c0, 0);
    proof {
        lemma_msum_insert(Map::empty(), c0, 0);
        assert(Map::<u64, usize>::empty().dom() =~= Set::empty());
        assert(path_cost@.dom() =~= Set::empty().insert(c0));
    }
    frontier.push(Item(h0 as usize, start));
    proof {
        assert(keys_ok(path_cost@)) by {
            assert(wf_board(sb) && enc64(sb) == c0);
        }
        assert(path_cost@.dom().len() == 1);
        assert(prev_ok(previous@, path_cost@, sb)) by {
            assert(previous@.dom() =~= path_cost@.dom());
        }
        assert(unpopped_in_frontier(path_cost@, popped, frontier@)) by {
            assert forall|c: u64|
                #[trigger] path_cost@.dom().contains(c) && !popped.contains(c) implies exists|
                p: int,
                j: int,
            | 0 <= p < frontier@.len() && 0 <= j < frontier@[p].len() && enc64(
                frontier@[p][j].1@,
            ) == c by {
                assert(c == c0);
                let p = h0 as int;
                let j = frontier@[p].len() - 1;
                assert(0 <= p < frontier@.len() && 0 <= j < frontier@[p].len() && enc64(
                    frontier@[p][j].1@,
                ) == c);
            }
        }
    }

    loop
        invariant
            sb == start@,
            wf_board(sb),
            frontier.inv(),
            path_cost@.dom().finite(),
            keys_ok(path_cost@),
            costs_bounded(path_cost@),
            prev_ok(previous@, path_cost@, sb),
            frontier_ok(frontier@, path_cost@),
            popped.subset_of(path_cost@.dom()),
            unpopped_in_frontier(path_cost@, popped, frontier@),
            popped_closed(popped, path_cost@),
            popped_no_goal(popped),
        decreases search_measure(path_cost@, frontier@),
    {
        proof {
            lemma_dom_bound(path_cost@);
            lemma_msum_nonneg(path_cost@);
            crate::frontier::lemma_total_nonneg(frontier@);
        }
        let ghost fv_pre = frontier@;
        match frontier.pop() {
            None => {
                proof {
                    lemma_search_exhausted(sb, path_cost@, popped, frontier@);
                }
                return None;
            },
            Some(it) => {
                let ghost itp = it.0 as int;
                let s = it.1;
                proof {
                    assert(wf_board(s@) && path_cost@.dom().contains(enc64(s@)));
                }
                let h = s.manhattan_dis();
                if h == 0 {
                    return Some(finish(previous, s, Ghost(sb), Ghost(path_cost@)));
                }
                proof {
                    lemma_after_pop(
                        path_cost@,
                        popped,
                        fv_pre,
                        frontier@,
                        itp,
                        enc64(s@),
                    );
                }
                expand(
                    &mut frontier,
                    &mut previous,
                    &mut path_cost,
                    &s,
                    Ghost(sb),
                    Ghost(popped),
                );
                proof {
                    popped = popped.insert(enc64(s@));
                    lemma_dom_bound(path_cost@);
                    lemma_msum_nonneg(path_cost@);
                    crate::frontier::lemma_total_nonneg(frontier@);
                }
            },
        }
    }
}

} // verus!
