use fences::board::Board;
use fences::items::Fence;
use fences::rules::{Apply, BoardRule, RuleError, TaskType};

fn corner_one() -> BoardRule {
    // a 1 in a corner: both corner edges are out
    BoardRule::from_text("1", "....", "x.x.", true, false).unwrap()
}

#[test]
fn placement_rotates_clockwise() {
    let mut t = TaskType::new(true, false);
    assert_eq!(t, TaskType::Corner(0));
    t.rotate();
    t.rotate();
    t.rotate();
    assert_eq!(t, TaskType::Corner(3));
    t.rotate();
    assert_eq!(t, TaskType::Corner(0));
    assert_eq!(TaskType::new(false, true), TaskType::Edge(0));
    let mut a = TaskType::new(false, false);
    a.rotate();
    assert_eq!(a, TaskType::Anywhere);
}

#[test]
fn rule_text_errors() {
    assert_eq!(
        BoardRule::from_text("1", "....", "....", true, true).unwrap_err(),
        RuleError::Placement
    );
    assert_eq!(
        BoardRule::from_text("7", "....", "....", false, false).unwrap_err(),
        RuleError::Task
    );
    assert_eq!(
        BoardRule::from_text("1", "...", "....", false, false).unwrap_err(),
        RuleError::Fences
    );
    assert_eq!(
        BoardRule::from_text("1", "....", "..?.", false, false).unwrap_err(),
        RuleError::Solution
    );
    let r = BoardRule::from_text("3\n3", "__..._..._", "x.._..._..x.", false, false);
    assert_eq!(r.unwrap_err(), RuleError::Fences);
    let r = BoardRule::from_text("3\n3", "..._....", "x.x_....", false, false).unwrap();
    assert_eq!(r.task.size(), (2, 1));
    assert_eq!(r.solution.h.get(0, 0), Fence(Some(false)));
    assert_eq!(r.solution.h.get(2, 0), Fence(Some(false)));
}

#[test]
fn key_lists_all_parts() {
    let r = corner_one();
    assert_eq!(r.to_hash(), "1|..|..|x.|x.|C0");
    let turned = r.rotated();
    assert_eq!(turned.to_hash(), "1|..|..|x.|.x|C1");
}

#[test]
fn symmetric_rule_has_one_rotation() {
    let zero = BoardRule::from_text("0", "....", "xxxx", false, false).unwrap();
    assert_eq!(zero.get_rotations().len(), 1);
}

#[test]
fn asymmetric_rule_has_four_rotations() {
    let rots = corner_one().get_rotations();
    assert_eq!(rots.len(), 4);
    let keys: Vec<String> = rots.iter().map(|r| r.to_hash()).collect();
    assert_eq!(keys[3], "1|..|..|.x|x.|C3");
}

#[test]
fn half_turn_symmetry_gives_two() {
    // two vertical edges on both sides of a 2: symmetric under a half turn only
    let r = BoardRule::from_text("2", "..--", "xx..", false, false).unwrap();
    assert_eq!(r.get_rotations().len(), 2);
}

#[test]
fn apply_at_outcomes() {
    let rule = corner_one();
    let mut b = Board::from_task_string(2, "1   ").unwrap();
    // not a corner anchor
    assert_eq!(rule.apply_at(&mut b, (1, 0)), Ok(Apply::NoMatch));
    assert_eq!(rule.apply_at(&mut b, (0, 0)), Ok(Apply::Deduced));
    assert_eq!(b.edge_at(0, (0, 0)), Fence(Some(false)));
    assert_eq!(b.edge_at(1, (0, 0)), Fence(Some(false)));
    // fired: nothing left to set
    assert_eq!(rule.apply_at(&mut b, (0, 0)), Ok(Apply::Unsatisfiable));
    // clue mismatch
    let mut c = Board::from_task_string(2, "2   ").unwrap();
    assert_eq!(rule.apply_at(&mut c, (0, 0)), Ok(Apply::NoMatch));
}

#[test]
fn apply_at_waits_and_refuses() {
    // a 3 next to a loop edge on its left: the right edge is in
    let rule = BoardRule::from_text("3", "..-.", "...-", false, false).unwrap();
    let mut b = Board::from_task_string(1, "3").unwrap();
    assert_eq!(rule.apply_at(&mut b, (0, 0)), Ok(Apply::Pending));
    b.play(1, (0, 0), false, String::new()).unwrap();
    assert_eq!(rule.apply_at(&mut b, (0, 0)), Ok(Apply::Unsatisfiable));
    let mut c = Board::from_task_string(1, "3").unwrap();
    c.play(1, (0, 0), true, String::new()).unwrap();
    c.play(1, (0, 1), false, String::new()).unwrap();
    // the only output edge is decided the other way: a contradiction
    let e = rule.apply_at(&mut c, (0, 0)).unwrap_err();
    assert_eq!(e.edge, (1, 0, 1));
    assert!(e.value);
    // the only output edge is decided already to the rule's value: nothing to do
    let mut d = Board::from_task_string(1, "3").unwrap();
    d.play(1, (0, 0), true, String::new()).unwrap();
    d.play(1, (0, 1), true, String::new()).unwrap();
    assert_eq!(rule.apply_at(&mut d, (0, 0)), Ok(Apply::Unsatisfiable));
    let wide = BoardRule::from_text("3", "..-.", "x..-", false, false).unwrap();
    let e = wide.apply_at(&mut c, (0, 0)).unwrap_err();
    assert_eq!(e.edge, (1, 0, 1));
    assert!(e.value);
}

#[test]
fn rotated_rule_on_rotated_board() {
    let rule = corner_one();
    let mut b = Board::from_task_string(2, "1   ").unwrap();
    assert_eq!(rule.apply_at(&mut b, (0, 0)), Ok(Apply::Deduced));
    // the board turned clockwise puts the clue at (0, 1)
    let turned = rule.rotated();
    let mut t = Board::from_task_string(2, " 1  ").unwrap();
    assert_eq!(turned.apply_at(&mut t, (0, 1)), Ok(Apply::Deduced));
    // horizontal (r, c) turns into vertical (c, 2 - r); vertical (r, c) into horizontal (c, 1 - r)
    assert_eq!(t.edge_at(1, (0, 2)), b.edge_at(0, (0, 0)));
    assert_eq!(t.edge_at(0, (0, 1)), b.edge_at(1, (0, 0)));
    assert_eq!(t.moves().len(), 2);
}
