use fences::board::Board;
use fences::items::Fence;
use fences::rules::BoardRule;
use fences::solver::{block_closed_paths, solve, sorted_tuples, FencesSolver, SolveError};

fn basic_rules() -> Vec<BoardRule> {
    let mut rules = vec![];
    for r in [
        BoardRule::from_text("0", "....", "xxxx", false, false).unwrap(),
        BoardRule::from_text("1", "....", "x.x.", true, false).unwrap(),
        BoardRule::from_text("3", "..-.", "...-", false, false).unwrap(),
    ] {
        rules.extend(r.get_rotations());
    }
    rules
}

fn edges(b: &Board) -> Vec<Option<bool>> {
    let mut v = vec![];
    for f in b.fences.h.data.iter().chain(b.fences.v.data.iter()) {
        v.push(f.0);
    }
    v
}

#[test]
fn solve_keeps_decided_edges() {
    let rules = basic_rules();
    let mut b = Board::from_task_string(3, "0  1  ").unwrap();
    b.play(1, (1, 3), true, String::new()).unwrap();
    let before = edges(&b);
    solve(&mut b, &rules).unwrap();
    let after = edges(&b);
    for (x, y) in before.iter().zip(after.iter()) {
        if x.is_some() {
            assert_eq!(x, y);
        }
    }
    // the 0 rules out its four sides
    assert_eq!(b.edge_at(0, (0, 0)), Fence(Some(false)));
    assert_eq!(b.edge_at(0, (1, 0)), Fence(Some(false)));
    assert_eq!(b.edge_at(1, (0, 0)), Fence(Some(false)));
    assert_eq!(b.edge_at(1, (0, 1)), Fence(Some(false)));
    // the 1 in the bottom-left corner rules out the corner edges
    assert_eq!(b.edge_at(0, (2, 0)), Fence(Some(false)));
    assert_eq!(b.edge_at(1, (1, 0)), Fence(Some(false)));
    assert!(edges(&b).iter().filter(|e| e.is_none()).count() < before.iter().filter(|e| e.is_none()).count());
}

#[test]
fn solve_twice_changes_nothing() {
    let rules = basic_rules();
    let mut b = Board::from_task_string(3, "03 1 3").unwrap();
    solve(&mut b, &rules).unwrap();
    let once = edges(&b);
    let moves = b.moves().len();
    solve(&mut b, &rules).unwrap();
    assert_eq!(edges(&b), once);
    assert_eq!(b.moves().len(), moves);
}

#[test]
fn contradiction_is_reported() {
    let rules = vec![
        BoardRule::from_text("0", "....", "x...", false, false).unwrap(),
        BoardRule::from_text("0", "....", "-.-.", false, false).unwrap(),
    ];
    let mut b = Board::from_task_string(1, "0").unwrap();
    let e = solve(&mut b, &rules).unwrap_err();
    assert_eq!(
        e,
        SolveError {
            rule: 1,
            origin: (0, 0),
            edge: (0, 0, 0),
            value: true
        }
    );
    assert_eq!(b.edge_at(0, (0, 0)), Fence(Some(false)));
}

#[test]
fn open_box_is_closed_off() {
    // three sides of cell (0, 0) and one more edge elsewhere
    let mut b = Board::from_task_string(2, "    ").unwrap();
    b.play(0, (0, 0), true, String::new()).unwrap();
    b.play(1, (0, 0), true, String::new()).unwrap();
    b.play(0, (1, 0), true, String::new()).unwrap();
    b.play(0, (2, 1), true, String::new()).unwrap();
    assert!(block_closed_paths(&mut b));
    assert_eq!(b.edge_at(1, (0, 1)), Fence(Some(false)));
    assert!(!block_closed_paths(&mut b));
}

#[test]
fn whole_board_box_is_left_open() {
    let mut b = Board::from_task_string(1, " ").unwrap();
    b.play(0, (0, 0), true, String::new()).unwrap();
    b.play(1, (0, 0), true, String::new()).unwrap();
    b.play(0, (1, 0), true, String::new()).unwrap();
    assert!(!block_closed_paths(&mut b));
    assert_eq!(b.edge_at(1, (0, 1)), Fence(None));
}

#[test]
fn box_corners() {
    assert_eq!(sorted_tuples((1, 5, 2), (0, 3, 4)), ((0, 3, 2), (1, 5, 4)));
}

#[test]
fn board_through_the_solver_interface() {
    let mut b = Board::from_task_string(2, "1 2 ").unwrap();
    assert_eq!(FencesSolver::task(&b, (1, 0)), fences::items::U2(Some(2)));
    assert!(FencesSolver::play(&mut b, 1, (0, 2), true, String::new()).is_ok());
    assert_eq!(FencesSolver::edge(&b, 1, (0, 2)), Fence(Some(true)));
    assert!(FencesSolver::play(&mut b, 1, (0, 2), false, String::new()).is_err());
    assert_eq!(FencesSolver::paths(&b), vec![vec![(1, 0, 2)]]);
}

#[test]
fn gap_of_two_closes_only_the_middle() {
    // the chain runs from h(0,2) to h(0,0); only h(0,1) would close it
    let mut b = Board::from_task_string(4, "        ").unwrap();
    for (d, r, c) in [(0, 0, 0), (0, 0, 2), (0, 1, 1), (1, 0, 1), (1, 0, 2), (1, 1, 4)] {
        b.play(d, (r, c), true, String::new()).unwrap();
    }
    assert!(block_closed_paths(&mut b));
    assert_eq!(b.edge_at(0, (0, 1)), Fence(Some(false)));
    assert_eq!(b.edge_at(1, (0, 3)), Fence(None));
    assert_eq!(b.edge_at(1, (0, 0)), Fence(None));
}

#[test]
fn contradiction_on_an_only_output_is_reported() {
    // the first rule rules the top edge out; the second wants it in and sets
    // nothing else
    let rules = vec![
        BoardRule::from_text("0", "....", "x...", false, false).unwrap(),
        BoardRule::from_text("0", "....", "-...", false, false).unwrap(),
    ];
    let mut b = Board::from_task_string(1, "0").unwrap();
    let e = solve(&mut b, &rules).unwrap_err();
    assert_eq!(e.rule, 1);
    assert_eq!(e.edge, (0, 0, 0));
    assert!(e.value);
}
