use reversi::board::{
    auto_reverse, check_putable, create_initial_data, get_another_color, get_reversable, BorW,
    Field, FieldOutError, GameResult, Masu, Position,
};

fn at(x: i32, y: i32) -> Position {
    Position::new(x, y).unwrap()
}

fn empty_field() -> Field {
    let mut f = Field::new();
    for x in 0..8 {
        for y in 0..8 {
            f.set(at(x, y), Masu::Empty);
        }
    }
    f
}

fn coords(ps: &[Position]) -> Vec<(usize, usize)> {
    ps.iter().map(|p| (p.x(), p.y())).collect()
}

#[test]
fn it_works() {
    let result = 2 + 2;
    assert_eq!(result, 4);
}

#[test]
fn lib_init_field_test() {
    let field = Field::new();
    assert!(field.get(Position::new(3, 3).unwrap()) == Masu::Putted(BorW::Black));
    assert!(field.get(Position::new(4, 4).unwrap()) == Masu::Putted(BorW::Black));
    assert!(field.get(Position::new(3, 4).unwrap()) == Masu::Putted(BorW::White));
    assert!(field.get(Position::new(4, 3).unwrap()) == Masu::Putted(BorW::White));
}

#[test]
fn lib_check_putable_test() {
    let field = Field::new();
    let turn = BorW::Black;
    assert!(!check_putable(&field, Position::new(0, 0).unwrap(), turn));
    assert!(check_putable(&field, Position::new(4, 2).unwrap(), turn));
}

#[test]
fn lib_auto_reverse_test() {
    let mut field = Field::new();
    field.set(Position::new(3, 3).unwrap(), Masu::Putted(BorW::Black));
    field.set(Position::new(3, 4).unwrap(), Masu::Putted(BorW::White));
    field.set(Position::new(3, 5).unwrap(), Masu::Putted(BorW::Black));
    auto_reverse(&mut field, Position::new(3, 5).unwrap(), BorW::Black);
    assert!(field.get(Position::new(3, 4).unwrap()) == Masu::Putted(BorW::Black));
}

#[test]
fn lib_count_test() {
    let mut field = Field::new();
    field.set(Position::new(0, 0).unwrap(), Masu::Putted(BorW::Black));
    assert!(field.count(BorW::Black) == 3)
}

#[test]
fn main_init_field_test() {
    let field = Field::new();
    assert!(field.get(Position::new(3, 3).unwrap()) == Masu::Putted(BorW::Black));
    assert!(field.get(Position::new(4, 4).unwrap()) == Masu::Putted(BorW::Black));
    assert!(field.get(Position::new(3, 4).unwrap()) == Masu::Putted(BorW::White));
    assert!(field.get(Position::new(4, 3).unwrap()) == Masu::Putted(BorW::White));
}

#[test]
fn main_check_putable_test() {
    let field = Field::new();
    let turn = BorW::Black;
    assert!(!check_putable(&field, Position::new(0, 0).unwrap(), turn));
    assert!(check_putable(&field, Position::new(4, 2).unwrap(), turn));
}

#[test]
fn main_auto_reverse_test() {
    let mut field = Field::new();
    field.set(Position::new(3, 3).unwrap(), Masu::Putted(BorW::Black));
    field.set(Position::new(3, 4).unwrap(), Masu::Putted(BorW::White));
    field.set(Position::new(3, 5).unwrap(), Masu::Putted(BorW::Black));
    auto_reverse(&mut field, Position::new(3, 5).unwrap(), BorW::Black);
    assert!(field.get(Position::new(3, 4).unwrap()) == Masu::Putted(BorW::Black));
}

#[test]
fn main_count_test() {
    let mut field = Field::new();
    field.set(Position::new(0, 0).unwrap(), Masu::Putted(BorW::Black));
    assert!(field.count(BorW::Black) == 3)
}

#[test]
fn position_accepts_the_board_and_nothing_else() {
    assert!(Position::new(0, 0).is_ok());
    assert!(Position::new(7, 7).is_ok());
    assert_eq!(Position::new(-1, 0), Err(FieldOutError));
    assert_eq!(Position::new(0, -1), Err(FieldOutError));
    assert_eq!(Position::new(8, 0), Err(FieldOutError));
    assert_eq!(Position::new(0, 8), Err(FieldOutError));
    assert_eq!(Position::new(i32::MAX, i32::MIN), Err(FieldOutError));
    let p = at(5, 2);
    assert_eq!((p.x(), p.y()), (5, 2));
}

#[test]
fn position_steps_one_square() {
    let p = at(4, 3);
    assert_eq!(p.up(), Ok(at(3, 3)));
    assert_eq!(p.down(), Ok(at(5, 3)));
    assert_eq!(p.left(), Ok(at(4, 2)));
    assert_eq!(p.right(), Ok(at(4, 4)));
    assert_eq!(p.shifted(-1, 1), Ok(at(3, 4)));
}

#[test]
fn position_steps_fail_at_the_edge() {
    assert_eq!(at(0, 3).up(), Err(FieldOutError));
    assert_eq!(at(7, 3).down(), Err(FieldOutError));
    assert_eq!(at(3, 0).left(), Err(FieldOutError));
    assert_eq!(at(3, 7).right(), Err(FieldOutError));
    assert!(at(0, 0).down().is_ok());
    assert!(at(0, 0).right().is_ok());
    assert_eq!(at(7, 7).shifted(1, 1), Err(FieldOutError));
    assert_eq!(at(0, 7).shifted(-8, 0), Err(FieldOutError));
}

#[test]
fn other_color_is_an_involution() {
    assert_eq!(get_another_color(BorW::Black), BorW::White);
    assert_eq!(get_another_color(BorW::White), BorW::Black);
    assert_eq!(get_another_color(get_another_color(BorW::Black)), BorW::Black);
}

#[test]
fn initial_board_has_four_discs() {
    let field = Field::new();
    let mut occupied = Vec::new();
    for x in 0..8 {
        for y in 0..8 {
            if field.get(at(x, y)) != Masu::Empty {
                occupied.push((x, y));
            }
        }
    }
    assert_eq!(occupied, vec![(3, 3), (3, 4), (4, 3), (4, 4)]);
    assert_eq!(field.count(BorW::Black), 2);
    assert_eq!(field.count(BorW::White), 2);
}

#[test]
fn initial_data_starts_with_black_in_the_corner() {
    let (field, cursor, turn) = create_initial_data();
    assert_eq!(field, Field::new());
    assert_eq!(cursor, at(0, 0));
    assert_eq!(turn, BorW::Black);
}

#[test]
fn initial_legal_moves_for_black() {
    let field = Field::new();
    assert!(!check_putable(&field, at(0, 0), BorW::Black));
    assert!(check_putable(&field, at(2, 4), BorW::Black));
    let mut legal = Vec::new();
    for x in 0..8 {
        for y in 0..8 {
            if check_putable(&field, at(x, y), BorW::Black) {
                legal.push((x, y));
            }
        }
    }
    assert_eq!(legal, vec![(2, 4), (3, 5), (4, 2), (5, 3)]);
}

#[test]
fn occupied_square_is_no_legal_move() {
    let field = Field::new();
    assert!(!check_putable(&field, at(3, 3), BorW::Black));
    assert!(!check_putable(&field, at(3, 4), BorW::Black));
}

#[test]
fn set_and_get_agree() {
    let mut field = Field::new();
    field.set(at(6, 1), Masu::Putted(BorW::White));
    assert_eq!(field.get(at(6, 1)), Masu::Putted(BorW::White));
    assert_eq!(field.get(at(1, 6)), Masu::Empty);
    field.set(at(3, 3), Masu::Empty);
    assert_eq!(field.get(at(3, 3)), Masu::Empty);
    assert_eq!(field.count(BorW::Black), 1);
    assert_eq!(field.count(BorW::White), 3);
}

#[test]
fn reversible_on_the_initial_board() {
    let field = Field::new();
    assert_eq!(coords(&get_reversable(&field, at(4, 2), BorW::Black)), vec![(4, 3)]);
    assert_eq!(coords(&get_reversable(&field, at(2, 4), BorW::Black)), vec![(3, 4)]);
    assert_eq!(coords(&get_reversable(&field, at(0, 0), BorW::Black)), vec![]);
    assert_eq!(coords(&get_reversable(&field, at(2, 3), BorW::White)), vec![(3, 3)]);
}

#[test]
fn reversible_walks_all_eight_directions_in_order() {
    let mut field = empty_field();
    let white = Masu::Putted(BorW::White);
    let black = Masu::Putted(BorW::Black);
    for (x, y) in [(2, 2), (2, 3), (2, 4), (4, 2), (4, 3), (4, 4), (3, 4), (3, 2)] {
        field.set(at(x, y), white);
    }
    for (x, y) in [(1, 1), (1, 3), (1, 5), (5, 1), (5, 3), (5, 5), (3, 5), (3, 1)] {
        field.set(at(x, y), black);
    }
    assert_eq!(
        coords(&get_reversable(&field, at(3, 3), BorW::Black)),
        vec![(2, 2), (2, 3), (2, 4), (4, 2), (4, 3), (4, 4), (3, 4), (3, 2)]
    );
}

#[test]
fn reversible_needs_a_closing_disc() {
    let mut field = empty_field();
    let white = Masu::Putted(BorW::White);
    // a run that meets the edge
    field.set(at(0, 1), white);
    field.set(at(0, 2), white);
    assert_eq!(coords(&get_reversable(&field, at(0, 3), BorW::Black)), vec![]);
    // a run that meets an empty square
    field.set(at(4, 4), white);
    field.set(at(4, 5), white);
    assert_eq!(coords(&get_reversable(&field, at(4, 3), BorW::Black)), vec![]);
    // the same run, closed
    field.set(at(4, 6), Masu::Putted(BorW::Black));
    assert_eq!(coords(&get_reversable(&field, at(4, 3), BorW::Black)), vec![(4, 4), (4, 5)]);
    // a long run to the far edge
    let mut row = empty_field();
    for y in 1..7 {
        row.set(at(7, y), white);
    }
    row.set(at(7, 7), Masu::Putted(BorW::Black));
    assert_eq!(
        coords(&get_reversable(&row, at(7, 0), BorW::Black)),
        vec![(7, 1), (7, 2), (7, 3), (7, 4), (7, 5), (7, 6)]
    );
}

#[test]
fn auto_reverse_puts_the_disc_and_turns_the_run() {
    let mut field = Field::new();
    auto_reverse(&mut field, at(4, 2), BorW::Black);
    assert_eq!(field.get(at(4, 2)), Masu::Putted(BorW::Black));
    assert_eq!(field.get(at(4, 3)), Masu::Putted(BorW::Black));
    assert_eq!(field.get(at(3, 4)), Masu::Putted(BorW::White));
    assert_eq!(field.count(BorW::Black), 4);
    assert_eq!(field.count(BorW::White), 1);
}

#[test]
fn legal_move_gains_for_the_mover_and_costs_the_other() {
    let mut field = Field::new();
    let mut turn = BorW::Black;
    for (x, y) in [(4, 2), (5, 2), (2, 4), (2, 5)] {
        let p = at(x, y);
        assert!(check_putable(&field, p, turn));
        let own = field.count(turn);
        let other = field.count(get_another_color(turn));
        auto_reverse(&mut field, p, turn);
        assert!(field.count(turn) > own);
        assert!(field.count(get_another_color(turn)) < other);
        assert_eq!(field.count(BorW::Black) + field.count(BorW::White), own + other + 1);
        turn = get_another_color(turn);
    }
    assert_eq!(field.count(BorW::Black) + field.count(BorW::White), 8);
}

#[test]
fn puttable_on_the_initial_board() {
    let field = Field::new();
    assert!(field.puttable(BorW::Black));
    assert!(field.puttable(BorW::White));
    assert!(!empty_field().puttable(BorW::Black));
}

#[test]
fn game_goes_on_while_a_move_is_left() {
    assert_eq!(Field::new().get_gameresult(), GameResult::Playing);
    // only White can move: still playing
    let mut field = empty_field();
    field.set(at(0, 0), Masu::Putted(BorW::White));
    field.set(at(0, 1), Masu::Putted(BorW::Black));
    assert!(!field.puttable(BorW::Black));
    assert!(field.puttable(BorW::White));
    assert_eq!(field.get_gameresult(), GameResult::Playing);
}

#[test]
fn game_is_drawn_on_equal_counts() {
    assert_eq!(empty_field().get_gameresult(), GameResult::Draw);
    let mut field = empty_field();
    for x in 0..8 {
        for y in 0..8 {
            let color = if x < 4 { BorW::Black } else { BorW::White };
            field.set(at(x, y), Masu::Putted(color));
        }
    }
    assert_eq!(field.count(BorW::Black), 32);
    assert_eq!(field.get_gameresult(), GameResult::Draw);
}

#[test]
fn game_is_won_by_the_colour_with_more_discs() {
    let mut field = empty_field();
    field.set(at(0, 0), Masu::Putted(BorW::Black));
    assert_eq!(field.get_gameresult(), GameResult::Win(BorW::Black));
    field.set(at(7, 7), Masu::Putted(BorW::White));
    field.set(at(7, 5), Masu::Putted(BorW::White));
    assert_eq!(field.get_gameresult(), GameResult::Win(BorW::White));
}

#[test]
fn out_of_range_error_says_what_is_wrong() {
    assert_eq!(FieldOutError.message(), "invalid range position");
    assert_eq!(Position::new(9, 9).unwrap_err().message(), "invalid range position");
}

#[test]
fn shift_by_any_distance_is_answered() {
    assert_eq!(at(0, 0).shifted(7, 7), Ok(at(7, 7)));
    assert_eq!(at(7, 7).shifted(-7, -7), Ok(at(0, 0)));
    assert_eq!(at(0, 0).shifted(8, 0), Err(FieldOutError));
    assert_eq!(at(3, 3).shifted(i32::MAX, 0), Err(FieldOutError));
    assert_eq!(at(3, 3).shifted(0, i32::MIN), Err(FieldOutError));
    assert_eq!(at(3, 3).shifted(0, 0), Ok(at(3, 3)));
}

#[test]
fn the_three_counts_fill_the_board() {
    let mut field = Field::new();
    let mut turn = BorW::Black;
    for (x, y) in [(4, 2), (5, 2), (2, 4), (2, 5)] {
        auto_reverse(&mut field, at(x, y), turn);
        turn = get_another_color(turn);
        let mut empty = 0;
        for i in 0..8 {
            for j in 0..8 {
                if field.get(at(i, j)) == Masu::Empty {
                    empty += 1;
                }
            }
        }
        assert_eq!(field.count(BorW::Black) + field.count(BorW::White) + empty, 64);
    }
}
