use fences::board::{are_linked, Board, ParseError};
use fences::items::{Fence, U2};

#[test]
fn check_board_result() {
    for (board, result) in [
        ("2#32  ", None),
        ("2#32  \n...-...-....", None),
        ("2#32  \n..--...-....", Some(false)),
        ("2#32  \n..x-...x....", Some(false)),
        ("2#32  \n-.-...--....", Some(false)),
        ("2#32  \n---..--.-.--", Some(true)),
        // one closed loop while a clue is still unmet: no other chain exists,
        // so the sub-loop check does not apply and the board stays undecided
        ("3#4  \n..-..-..--", None),
        ("3#4  \n-.--.-----", Some(false)),
        ("3#4  \n-..-..--..", Some(true)),
    ] {
        assert_eq!(board.parse::<Board>().unwrap().result(), result);
    }
}

#[test]
fn win_scenarios() {
    let mut b = Board::from_task_string(2, "32  ").unwrap();
    assert_eq!(b.result(), None);
    b.set_solution("---..--.-.--").unwrap();
    assert_eq!(b.result(), Some(true));
    let mut c = Board::from_task_string(2, "32  ").unwrap();
    c.set_solution("..--...-....").unwrap();
    assert_eq!(c.result(), Some(false));
}

#[test]
fn linked_edges() {
    assert!(are_linked(&(0, 0, 0), &(0, 0, 1)));
    assert!(are_linked(&(0, 0, 0), &(1, 0, 0)));
    assert!(are_linked(&(0, 1, 0), &(1, 0, 1)));
    assert!(!are_linked(&(0, 0, 0), &(0, 1, 0)));
    assert!(!are_linked(&(1, 0, 0), &(1, 0, 0)));
    assert!(are_linked(&(1, 0, 0), &(1, 1, 0)));
}

#[test]
fn one_cell_loop_is_one_closed_path() {
    // loop around cell (1, 1) of a 2 by 2 board
    let mut b = Board::from_task_string(2, "    ").unwrap();
    b.play(0, (1, 1), true, String::new()).unwrap();
    b.play(0, (2, 1), true, String::new()).unwrap();
    b.play(1, (1, 1), true, String::new()).unwrap();
    b.play(1, (1, 2), true, String::new()).unwrap();
    let paths = b.paths();
    assert_eq!(paths.len(), 1);
    let p = &paths[0];
    assert_eq!(p.len(), 4);
    assert!(are_linked(&p[0], &p[3]));
    assert_eq!(p, &vec![(1, 1, 1), (0, 1, 1), (1, 1, 2), (0, 2, 1)]);
}

#[test]
fn play_refuses_opposite_value() {
    let mut b = Board::from_task_string(1, "2").unwrap();
    assert!(b.play(0, (0, 0), true, "a".to_string()).is_ok());
    assert!(b.play(0, (0, 0), true, "b".to_string()).is_ok());
    assert_eq!(b.moves().len(), 1);
    let e = b.play(0, (0, 0), false, "c".to_string()).unwrap_err();
    assert_eq!(e.edge, (0, 0, 0));
    assert!(!e.value);
    assert_eq!(b.moves().len(), 1);
}

#[test]
fn reset_undoes_moves() {
    let mut b = Board::from_task_string(2, "    ").unwrap();
    b.play(0, (0, 0), true, String::new()).unwrap();
    b.play(1, (0, 0), false, String::new()).unwrap();
    b.play(0, (1, 1), true, String::new()).unwrap();
    assert!(b.reset_to(4).is_err());
    b.reset_to(1).unwrap();
    assert_eq!(b.moves().len(), 1);
    assert_eq!(b.edge_at(0, (0, 0)), Fence(Some(true)));
    assert_eq!(b.edge_at(1, (0, 0)), Fence(None));
    assert_eq!(b.edge_at(0, (1, 1)), Fence(None));
}

#[test]
fn solution_string() {
    let mut b = Board::from_task_string(1, "3").unwrap();
    b.set_solution("-x.-").unwrap();
    assert_eq!(b.solution(), "ynny");
}

#[test]
fn parse_formats() {
    let b = "2#3 \n0 0 1 y\n1 0 0 n".parse::<Board>().unwrap();
    assert_eq!(b.size(), (1, 2));
    assert_eq!(b.task((0, 0)), U2(Some(3)));
    assert_eq!(b.task((0, 1)), U2(None));
    assert_eq!(b.edge_at(0, (0, 1)), Fence(Some(true)));
    assert_eq!(b.edge_at(1, (0, 0)), Fence(Some(false)));
    let plain = "1 \n 2".parse::<Board>().unwrap();
    assert_eq!(plain.size(), (2, 2));
    assert_eq!(plain.task((1, 1)), U2(Some(2)));
    assert_eq!("2#3 \n0 5 5 y".parse::<Board>().unwrap_err(), ParseError::Move);
    assert_eq!("2#37".parse::<Board>().unwrap_err(), ParseError::Clues);
    assert!(matches!(
        "2#3 \n0 0 0 y\n0 0 0 n".parse::<Board>().unwrap_err(),
        ParseError::Conflict(_)
    ));
}

#[test]
fn clue_limits() {
    assert!(U2(Some(3)).is_ok(1, 3));
    assert!(!U2(Some(3)).is_ok(2, 0));
    assert!(!U2(Some(1)).is_ok(0, 2));
    assert!(U2(None).is_ok(4, 4));
    assert_eq!(U2::from_char('4'), Some(U2(Some(4))));
    assert_eq!(U2::from_char('5'), None);
    assert_eq!(Fence::from_char('x'), Some(Fence(Some(false))));
    assert_eq!(Fence::from_char('?'), None);
}

#[test]
fn drawing_of_a_solved_board() {
    let mut b = Board::from_task_string(1, "4").unwrap();
    b.set_solution("----").unwrap();
    let text = fences::render::print_board(&b.tasks, &b.fences);
    assert_eq!(text, "┌─┐\n│4│\n└─┘");
    b.set_solution("--x-").unwrap();
    let text = fences::render::print_board(&b.tasks, &b.fences);
    assert_eq!(text, "∙─┐\n×4│\n∙─┘");
    let mut c = Board::from_task_string(2, "3 ").unwrap();
    c.set_solution("--......-..").unwrap();
    assert_eq!(
        fences::render::print_board(&c.tasks, &c.fences),
        "∙───∙\n 3   \n∙ ∙ ∙"
    );
}

#[test]
fn every_loop_edge_lies_on_a_chain() {
    let mut b = Board::from_task_string(3, "         ").unwrap();
    for (d, r, c) in [(0, 0, 0), (0, 0, 1), (1, 0, 2), (0, 3, 0), (1, 2, 3)] {
        b.play(d, (r, c), true, String::new()).unwrap();
    }
    let paths = b.paths();
    let mut all: Vec<(usize, usize, usize)> = paths.iter().flatten().cloned().collect();
    all.sort();
    assert_eq!(all, vec![(0, 0, 0), (0, 0, 1), (0, 3, 0), (1, 0, 2), (1, 2, 3)]);
    for p in paths.iter() {
        for w in p.windows(2) {
            assert!(are_linked(&w[0], &w[1]));
        }
    }
    assert_eq!(paths.len(), 3);
}

#[test]
fn header_alone_is_accepted() {
    let b = "3#1 2     4".parse::<Board>().unwrap();
    assert_eq!(b.size(), (3, 3));
    assert_eq!(b.task((2, 2)), U2(Some(4)));
    assert_eq!("0#".parse::<Board>().unwrap_err(), ParseError::Clues);
    assert_eq!("x#1".parse::<Board>().unwrap_err(), ParseError::Header);
}
