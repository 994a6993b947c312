use fences::geom::BoardGeom;
use fences::grid::Grid;
use fences::items::{Fence, U2};
use fences::rules::TaskType;
use fences::ruleset::{BoardRules, Rule};
use fences::Board;

fn cells(s: &str) -> Vec<Fence> {
    s.chars().map(|c| Fence::from_char(c).unwrap()).collect()
}

#[test]
fn rule_print_and_turn() {
    let mut r = Rule::new((1, 1), cells("x..."), cells("...-"), TaskType::Corner(0));
    assert_eq!(
        r.print(),
        "Rule Corner(0)\n  in_h: x|. out_h: .|.\n  in_v: .. out_v: .-"
    );
    r.rotate();
    assert_eq!(
        r.print(),
        "Rule Corner(1)\n  in_h: .|. out_h: .|-\n  in_v: .x out_v: .."
    );
}

#[test]
fn rule_set_holds_all_turns() {
    let mut set = BoardRules::new();
    let clues = Grid::from_string(2, "3 ").unwrap();
    // a 3 with its left side in: 1 by 2 clue pattern, 7 edges
    set.add_rule(&clues, cells(".......") , cells("....-.."), TaskType::Anywhere);
    assert_eq!(set.0.len(), 4);
    for (_, rules) in set.0.iter() {
        assert_eq!(rules.len(), 1);
    }
    // adding it again changes nothing
    set.add_rule(&clues, cells("......."), cells("....-.."), TaskType::Anywhere);
    assert_eq!(set.0.len(), 4);
    assert_eq!(set.0[1].0.size(), (2, 1));
    assert_eq!(set.0[2].0.data, vec![U2(None), U2(Some(3))]);
}

#[test]
fn symmetric_rule_set_shares_keys() {
    let mut set = BoardRules::new();
    let clues = Grid::from_string(1, "0").unwrap();
    set.add_rule(&clues, cells("...."), cells("xxxx"), TaskType::Anywhere);
    assert_eq!(set.0.len(), 1);
    assert_eq!(set.0[0].1.len(), 1);
    let a = Rule::new((1, 1), cells("...."), cells("xxxx"), TaskType::Anywhere);
    assert!(set.0[0].1[0].same(&a));
}

#[test]
fn clue_grids_from_text() {
    let g = Grid::from_string(3, "12 3 4").unwrap();
    assert_eq!(g.size(), (2, 3));
    assert_eq!(g.get(1, 2), U2(Some(4)));
    assert!(Grid::from_string(4, "12 3 4").is_none());
    assert!(Grid::from_string(2, "1x").is_none());
    let l = Grid::from_lines("12 \n3 4").unwrap();
    assert_eq!(l.size(), (2, 3));
    assert_eq!(l.get(1, 0), U2(Some(3)));
    assert!(Grid::from_lines("12\n3").is_none());
}

#[test]
fn shapes_through_the_trait() {
    let b = Board::from_task_string(3, "      ").unwrap();
    assert_eq!(BoardGeom::size(&b), (2, 3));
    assert_eq!(BoardGeom::rows(&b), 2);
    assert_eq!(BoardGeom::cols(&b), 3);
    let g = Grid::filled(4, 1, 0u8);
    assert_eq!(BoardGeom::cols(&g), 1);
}

#[test]
fn clue_grid_as_text() {
    let g = Grid::from_string(3, "12 3 4").unwrap();
    assert_eq!(g.to_string(), "12 \n3 4");
    assert_eq!(Grid::from_lines(&g.to_string()).unwrap().data, g.data);
}
