use minesweeper::{Cell, Game, OutOfBounds, Status};

fn count_where(game: &Game, f: fn(&Cell) -> bool) -> usize {
    let mut n = 0;
    for row in game.cells() {
        for cell in row {
            if f(&cell) {
                n += 1;
            }
        }
    }
    n
}

#[test]
fn positions_outside_the_board_are_refused() {
    let mut game = Game::new(3, 4, 1);
    assert_eq!(Err(OutOfBounds), game.open((3, 0)));
    assert_eq!(Err(OutOfBounds), game.open((0, 4)));
    assert_eq!(Err(OutOfBounds), game.toggle_flag((3, 3)));
    assert_eq!(Err(OutOfBounds), game.plant_bomb((5, 1)));
    assert!(game.cell((2, 4)).is_err());
    assert!(game.cell((2, 3)).is_ok());
    assert_eq!(0, count_where(&game, |c| c.is_shown() || c.is_flagged() || c.is_mined()));
}

#[test]
fn cells_snapshot_has_the_board_shape() {
    let game = Game::new(2, 5, 0);
    let cells = game.cells();
    assert_eq!(2, cells.len());
    assert_eq!(5, cells[0].len());
    assert_eq!(5, cells[1].len());
}

#[test]
fn a_corner_mine_counts_in_three_neighbours() {
    let mut game = Game::new(4, 4, 1);
    game.plant_bomb((0, 0)).unwrap();
    assert_eq!(3, count_where(&game, |c| c.bombs_around() == 1));
    for pos in [(0, 1), (1, 0), (1, 1)] {
        assert_eq!(1, game.cell(pos).unwrap().bombs_around());
    }
    assert_eq!(0, game.cell((2, 2)).unwrap().bombs_around());
}

#[test]
fn an_edge_mine_counts_in_five_neighbours() {
    let mut game = Game::new(4, 4, 1);
    game.plant_bomb((0, 1)).unwrap();
    assert_eq!(5, count_where(&game, |c| c.bombs_around() == 1));
}

#[test]
fn an_inner_mine_counts_in_eight_neighbours() {
    let mut game = Game::new(4, 4, 1);
    game.plant_bomb((1, 2)).unwrap();
    assert_eq!(8, count_where(&game, |c| c.bombs_around() == 1));
    assert!(game.cell((1, 2)).unwrap().is_mined());
    assert_eq!(0, game.cell((1, 2)).unwrap().bombs_around());
}

#[test]
fn a_mined_neighbour_keeps_its_mine() {
    let mut game = Game::new(3, 3, 2);
    game.plant_bomb((0, 0)).unwrap();
    game.plant_bomb((0, 1)).unwrap();
    assert!(game.cell((0, 0)).unwrap().is_mined());
    assert!(game.cell((0, 1)).unwrap().is_mined());
    assert_eq!(2, game.cell((1, 1)).unwrap().bombs_around());
    assert_eq!(2, game.cell((1, 0)).unwrap().bombs_around());
    assert_eq!(1, game.cell((0, 2)).unwrap().bombs_around());
}

#[test]
fn opening_a_shown_cell_changes_nothing() {
    let mut game = Game::new(3, 3, 1);
    game.plant_bomb((2, 2)).unwrap();
    let first = game.open((0, 0)).unwrap();
    let before = game.cells();
    let second = game.open((0, 0)).unwrap();
    let third = game.open((1, 1)).unwrap();
    assert_eq!(first, second);
    assert_eq!(first, third);
    let after = game.cells();
    for x in 0..3 {
        for y in 0..3 {
            assert_eq!(before[x][y].is_shown(), after[x][y].is_shown());
            assert_eq!(before[x][y].is_flagged(), after[x][y].is_flagged());
            assert_eq!(before[x][y].is_exploded(), after[x][y].is_exploded());
        }
    }
}

#[test]
fn flagging_twice_gives_the_flag_back() {
    let mut game = Game::new(3, 3, 2);
    assert_eq!(Ok(Status::InProgress(1)), game.toggle_flag((1, 1)));
    assert_eq!(Ok(Status::InProgress(2)), game.toggle_flag((1, 1)));
    assert!(!game.cell((1, 1)).unwrap().is_flagged());
}

#[test]
fn flags_left_may_go_below_zero() {
    let mut game = Game::new(3, 3, 1);
    game.toggle_flag((0, 0)).unwrap();
    game.toggle_flag((0, 1)).unwrap();
    assert_eq!(Ok(Status::InProgress(-2)), game.toggle_flag((0, 2)));
}

#[test]
fn flags_do_not_win_the_game() {
    let mut game = Game::new(2, 2, 1);
    game.plant_bomb((0, 0)).unwrap();
    game.toggle_flag((0, 0)).unwrap();
    game.toggle_flag((0, 1)).unwrap();
    assert_eq!(Ok(Status::InProgress(-2)), game.toggle_flag((1, 0)));
    game.toggle_flag((0, 1)).unwrap();
    game.toggle_flag((1, 0)).unwrap();
    game.open((0, 1)).unwrap();
    game.open((1, 0)).unwrap();
    assert_eq!(Ok(Status::Won), game.open((1, 1)));
}

#[test]
fn a_lost_game_stays_lost() {
    let mut game = Game::new(3, 3, 2);
    game.plant_bomb((0, 0)).unwrap();
    game.plant_bomb((2, 2)).unwrap();
    assert_eq!(Ok(Status::Lost), game.open((0, 0)));
    assert_eq!(Ok(Status::Lost), game.open((1, 1)));
    assert_eq!(Ok(Status::Lost), game.toggle_flag((0, 1)));
    assert_eq!(Ok(Status::Lost), game.open((2, 2)));
    assert_eq!(2, count_where(&game, |c| c.is_exploded()));
}

#[test]
fn the_fill_skips_flagged_and_mined_cells() {
    let mut game = Game::new(3, 3, 0);
    game.toggle_flag((2, 2)).unwrap();
    game.open((0, 0)).unwrap();
    assert!(!game.cell((2, 2)).unwrap().is_shown());
    assert_eq!(8, count_where(&game, |c| c.is_shown()));

    let mut mined = Game::new(3, 3, 1);
    mined.plant_bomb((2, 2)).unwrap();
    assert_eq!(Ok(Status::Won), mined.open((0, 0)));
    assert!(!mined.cell((2, 2)).unwrap().is_shown());
    assert_eq!(0, count_where(&mined, |c| c.is_exploded()));
}

#[test]
fn the_fill_stops_at_numbered_cells() {
    let mut game = Game::new(1, 5, 1);
    game.plant_bomb((0, 4)).unwrap();
    game.open((0, 0)).unwrap();
    assert!(game.cell((0, 3)).unwrap().is_shown());
    assert_eq!(1, game.cell((0, 3)).unwrap().bombs_around());
    assert!(!game.cell((0, 4)).unwrap().is_shown());
    assert_eq!(4, count_where(&game, |c| c.is_shown()));
}

#[test]
fn one_mine_in_the_corner_gives_a_count_of_one_in_the_middle() {
    let mut game = Game::new(3, 3, 1);
    game.plant_bomb((0, 0)).unwrap();
    assert_eq!(Ok(Status::InProgress(1)), game.open((1, 1)));
    assert_eq!(1, game.cell((1, 1)).unwrap().bombs_around());
    assert_eq!(1, count_where(&game, |c| c.is_shown()));
}

#[test]
fn an_empty_board_of_one_cell_is_won_at_once() {
    let mut game = Game::new(1, 1, 0);
    assert_eq!(Ok(Status::Won), game.open((0, 0)));
}

#[test]
fn a_large_board_is_cleared_in_one_open() {
    let mut game = Game::new(255, 255, 0);
    assert_eq!(Ok(Status::Won), game.open((100, 200)));
    assert_eq!(255 * 255, count_where(&game, |c| c.is_shown()));
}

#[test]
fn a_mined_cell_ignores_counting() {
    let mut cell = Cell::new();
    cell.plant_bomb();
    cell.inc_bombs_around();
    assert!(cell.is_mined());
    assert_eq!(0, cell.bombs_around());
}

#[test]
fn larger_counts_render_in_decimal() {
    let mut cell = Cell::new();
    for _ in 0..12 {
        cell.inc_bombs_around();
    }
    cell.show();
    assert_eq!(" 12 ", cell.render());
    for _ in 0..100 {
        cell.inc_bombs_around();
    }
    assert_eq!(" 112 ", cell.render());
    cell.toggle_flag();
    assert_eq!("🏳 ", cell.render());
}
