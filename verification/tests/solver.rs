use eight_puzzle::frontier::Frontier;
use eight_puzzle::frontier::Item;
use eight_puzzle::search::find_path;
use eight_puzzle::search::get_path;
use eight_puzzle::state::Dir;
use eight_puzzle::state::State;
use std::collections::HashMap;

fn solved() -> State {
    State { board: vec![1, 2, 3, 4, 5, 6, 7, 8, 0] }
}

fn fixed_start() -> State {
    State { board: vec![1, 2, 5, 3, 4, 0, 6, 7, 8] }
}

fn diff_count(a: &State, b: &State) -> usize {
    (0..9).filter(|&i| a.board[i] != b.board[i]).count()
}

#[test]
fn manhattan_solved_is_zero() {
    assert_eq!(solved().manhattan_dis(), 0);
}

#[test]
fn manhattan_fixed_start() {
    assert_eq!(fixed_start().manhattan_dis(), 11);
}

#[test]
fn manhattan_positive_off_goal() {
    let s = State { board: vec![1, 2, 3, 4, 5, 6, 7, 0, 8] };
    assert_eq!(s.manhattan_dis(), 1);
}

#[test]
fn get_pos_finds_cells() {
    let s = fixed_start();
    assert_eq!(s.get_pos(0), Some((2, 1)));
    assert_eq!(s.get_pos(1), Some((0, 0)));
    assert_eq!(s.get_pos(8), Some((2, 2)));
    assert_eq!(s.get_pos(9), None);
}

#[test]
fn target_dis_values() {
    let s = fixed_start();
    assert_eq!(s.target_dis(1), 0);
    assert_eq!(s.target_dis(5), 2);
    assert_eq!(s.target_dis(3), 3);
}

#[test]
fn dir_all_four() {
    let dirs = Dir::all();
    assert_eq!(dirs.len(), 4);
    assert_eq!(dirs[0], Dir::Up);
    assert_eq!(dirs[1], Dir::Down);
    assert_eq!(dirs[2], Dir::Left);
    assert_eq!(dirs[3], Dir::Right);
}

#[test]
fn item_pairs_priority_and_state() {
    let it = Item(7, solved());
    assert_eq!(it.0, 7);
    assert_eq!(it.1, solved());
}

#[test]
fn neighbors_center_four() {
    let s = State { board: vec![1, 2, 3, 4, 0, 5, 6, 7, 8] };
    assert_eq!(s.neighbors().len(), 4);
}

#[test]
fn neighbors_corner_two() {
    let s = State { board: vec![0, 1, 2, 3, 4, 5, 6, 7, 8] };
    assert_eq!(s.neighbors().len(), 2);
    let t = solved();
    assert_eq!(t.neighbors().len(), 2);
}

#[test]
fn neighbors_edge_three() {
    let s = State { board: vec![1, 0, 2, 3, 4, 5, 6, 7, 8] };
    assert_eq!(s.neighbors().len(), 3);
    let t = fixed_start();
    assert_eq!(t.neighbors().len(), 3);
}

#[test]
fn neighbors_differ_in_two_adjacent_cells() {
    for s in [solved(), fixed_start()] {
        let bx = s.get_pos(0).unwrap();
        let bi = bx.1 * 3 + bx.0;
        for n in s.neighbors() {
            assert_eq!(diff_count(&s, &n), 2);
            let nx = n.get_pos(0).unwrap();
            let ni = nx.1 * 3 + nx.0;
            let (lo, hi) = if bi < ni { (bi, ni) } else { (ni, bi) };
            // the two changed cells are the blank's old and new cell,
            // which share a grid edge
            assert!(hi - lo == 3 || (hi - lo == 1 && lo % 3 < 2));
            assert!(n.board[bi] != 0 && n.board[ni] == 0);
        }
    }
}

#[test]
fn neighbors_reversible() {
    for s in [solved(), fixed_start()] {
        for n in s.neighbors() {
            assert!(n.neighbors().contains(&s));
        }
    }
}

#[test]
fn find_path_fixed_start() {
    let start = fixed_start();
    let path = find_path(start.clone()).expect("the fixed start is solvable");
    assert!(path.len() >= 1);
    assert_eq!(path[0], start);
    assert_eq!(path[path.len() - 1], solved());
    for i in 0..path.len() - 1 {
        assert!(path[i].neighbors().contains(&path[i + 1]));
    }
}

#[test]
fn find_path_at_least_heuristic() {
    let start = fixed_start();
    let h = start.manhattan_dis();
    let path = find_path(start).expect("the fixed start is solvable");
    assert!((path.len() - 1) as i32 >= h);
}

#[test]
fn find_path_idempotent() {
    let a = find_path(fixed_start()).expect("the fixed start is solvable");
    let b = find_path(fixed_start()).expect("the fixed start is solvable");
    assert_eq!(a.len(), b.len());
}

#[test]
fn find_path_on_solved_start() {
    let path = find_path(solved()).expect("the solved board is solvable");
    assert_eq!(path.len(), 1);
    assert_eq!(path[0], solved());
}

#[test]
fn find_path_unsolvable_returns_none() {
    // two tiles of the solved board swapped: odd permutation parity
    let start = State { board: vec![2, 1, 3, 4, 5, 6, 7, 8, 0] };
    assert_eq!(find_path(start), None);
}

#[test]
fn end_to_end_blank_top_left() {
    let start = State { board: vec![0, 1, 2, 3, 4, 5, 6, 7, 8] };
    let path = find_path(start.clone()).expect("the shifted start is solvable");
    assert_eq!(path[0], start);
    assert_eq!(path[path.len() - 1], solved());
    for i in 0..path.len() - 1 {
        assert!(path[i].neighbors().contains(&path[i + 1]));
    }
    // known minimal move count for this instance
    assert_eq!(path.len() - 1, 22);
}

#[test]
fn frontier_pops_least_priority_first() {
    let mut f = Frontier::new();
    assert_eq!(f.pop(), None);
    f.push(Item(3, solved()));
    f.push(Item(1, fixed_start()));
    f.push(Item(2, solved()));
    assert_eq!(f.pop(), Some(Item(1, fixed_start())));
    assert_eq!(f.pop(), Some(Item(2, solved())));
    f.push(Item(0, fixed_start()));
    assert_eq!(f.pop(), Some(Item(0, fixed_start())));
    assert_eq!(f.pop(), Some(Item(3, solved())));
    assert_eq!(f.pop(), None);
}

#[test]
fn get_path_walks_predecessors() {
    // one recorded move: solved -> one blank-move up
    let goal = State { board: vec![1, 2, 3, 4, 5, 0, 7, 8, 6] };
    let mut previous: HashMap<u64, Option<State>> = HashMap::new();
    previous.insert(0x123450786, Some(solved()));
    previous.insert(0x123456780, None);
    let path = get_path(previous, goal.clone());
    assert_eq!(path.len(), 2);
    assert_eq!(path[0], solved());
    assert_eq!(path[1], goal);
}
