use minesweeper::{Game, Status};

#[test]
fn total_bombs_num_is_correct() {
    // arrange
    let bombs = 3;
    let sut = Game::new(3, 3, bombs);

    // act
    let got = sut.bombs();

    // assert
    assert_eq!(bombs, got);
}

#[test]
fn rows_num_is_correct() {
    // arrange
    let rows = 3;
    let sut = Game::new(rows, 3, 3);

    // act
    let got = sut.rows();

    // assert
    assert_eq!(rows, got);
}

#[test]
fn cols_num_is_correct() {
    // arrange
    let cols = 3;
    let sut = Game::new(3, cols, 3);

    // act
    let got = sut.cols();

    // assert
    assert_eq!(cols, got);
}

#[test]
fn cell_is_flagged() {
    // arrange
    let mut sut = Game::new(3, 3, 3);

    // act
    let status = sut.toggle_flag((0, 0)).unwrap();

    // assert
    assert_eq!(Status::InProgress(2), status);
    assert!(sut.cell((0, 0)).unwrap().is_flagged());
}

#[test]
fn nothing_happens_if_an_open_cell_is_being_flagged() {
    // arrange
    let mut sut = Game::new(3, 3, 3);
    sut.open((0, 0)).unwrap();

    // act
    let status = sut.toggle_flag((0, 0)).unwrap();

    // assert
    assert_eq!(Status::InProgress(3), status);
    assert!(!sut.cell((0, 0)).unwrap().is_flagged());
}

#[test]
fn bomb_is_planted() {
    // arrange
    let mut sut = Game::new(3, 3, 1);
    let pos = (0, 0);

    // act
    sut.plant_bomb(pos).unwrap();

    // assert
    assert!(sut.cell(pos).unwrap().is_mined());
}

#[test]
fn cell_is_revealed_once_it_is_open() {
    // arrange
    let mut sut = Game::new(3, 3, 3);
    let pos = (0, 0);

    // act
    let status = sut.open(pos).unwrap();

    // assert
    assert_eq!(Status::InProgress(3), status);
    assert!(sut.cell(pos).unwrap().is_shown());
}

#[test]
fn game_is_lost_if_a_cell_with_a_bomb_is_opened() {
    // arrange
    let mut sut = Game::new(3, 3, 1);
    let pos = (0, 0);
    sut.plant_bomb(pos).unwrap();

    // act
    let status = sut.open(pos).unwrap();

    // assert
    assert_eq!(Status::Lost, status);
    assert!(sut.cell(pos).unwrap().is_shown());
    assert!(sut.cell(pos).unwrap().is_mined());
    assert!(sut.cell(pos).unwrap().is_exploded());
}

#[test]
fn game_is_won_if_all_bombs_are_flagged() {
    // arrange
    let mut sut = Game::new(3, 3, 2);
    sut.plant_bomb((0, 0)).unwrap();
    sut.plant_bomb((2, 2)).unwrap();

    // act
    sut.open((0, 1)).unwrap();
    sut.open((0, 2)).unwrap();
    sut.open((1, 0)).unwrap();
    sut.open((1, 1)).unwrap();
    sut.open((1, 2)).unwrap();
    sut.open((2, 0)).unwrap();
    sut.open((2, 1)).unwrap();

    sut.toggle_flag((0, 0)).unwrap();
    let status = sut.toggle_flag((2, 2)).unwrap();

    // assert
    assert_eq!(Status::Won, status)
}

#[test]
fn game_is_won_if_all_non_bomb_cells_are_open() {
    // arrange
    let mut sut = Game::new(3, 3, 2);
    sut.plant_bomb((0, 0)).unwrap();
    sut.plant_bomb((2, 2)).unwrap();

    // act
    sut.open((0, 1)).unwrap();
    sut.open((0, 2)).unwrap();
    sut.open((1, 0)).unwrap();
    sut.open((1, 1)).unwrap();
    sut.open((1, 2)).unwrap();
    sut.open((2, 0)).unwrap();

    let status = sut.open((2, 1)).unwrap();

    // assert
    assert_eq!(Status::Won, status)
}

#[test]
fn nothing_happens_if_a_flagged_cell_with_a_bomb_is_being_opened() {
    // arrange
    let mut sut = Game::new(3, 3, 1);
    let pos = (0, 0);

    sut.plant_bomb(pos).unwrap();
    sut.toggle_flag(pos).unwrap();

    // act
    let status = sut.open(pos).unwrap();

    // assert
    assert_eq!(Status::InProgress(0), status);
    assert_eq!(false, sut.cell(pos).unwrap().is_shown());
    assert!(sut.cell(pos).unwrap().is_mined());
    assert!(sut.cell(pos).unwrap().is_flagged());
}

#[test]
fn there_are_no_bombs_around() {
    // arrange
    let mut sut = Game::new(3, 3, 0);

    // act
    sut.open((0, 0)).unwrap();

    // assert
    let bombs_around = sut.cell((0, 0)).unwrap().bombs_around();
    assert_eq!(0, bombs_around);
}

#[test]
fn there_is_one_bomb_around() {
    // arrange
    let mut sut = Game::new(3, 3, 1);
    sut.plant_bomb((0, 0)).unwrap();

    // act
    sut.open((1, 1)).unwrap();

    // assert
    let bombs_around = sut.cell((1, 1)).unwrap().bombs_around();
    assert_eq!(1, bombs_around);
}

#[test]
fn there_are_two_bombs_around() {
    // arrange
    let mut sut = Game::new(3, 3, 2);
    sut.plant_bomb((0, 0)).unwrap(); // top left
    sut.plant_bomb((2, 2)).unwrap(); // bottom right

    // act
    sut.open((1, 1)).unwrap();

    // assert
    let bombs_around = sut.cell((1, 1)).unwrap().bombs_around();
    assert_eq!(2, bombs_around);
}

#[test]
fn there_are_thee_bombs_around() {
    // arrange
    let mut sut = Game::new(3, 3, 3);
    sut.plant_bomb((0, 0)).unwrap(); // top left
    sut.plant_bomb((0, 1)).unwrap(); // top center
    sut.plant_bomb((2, 2)).unwrap(); // bottom right

    // act
    sut.open((1, 1)).unwrap();

    // assert
    let bombs_around = sut.cell((1, 1)).unwrap().bombs_around();
    assert_eq!(3, bombs_around);
}

#[test]
fn there_are_four_bombs_around() {
    // arrange
    let mut sut = Game::new(3, 3, 4);
    sut.plant_bomb((0, 0)).unwrap(); // top left
    sut.plant_bomb((0, 1)).unwrap(); // top center
    sut.plant_bomb((0, 2)).unwrap(); // top right
    sut.plant_bomb((2, 2)).unwrap(); // bottom right

    // act
    sut.open((1, 1)).unwrap();

    // assert
    let bombs_around = sut.cell((1, 1)).unwrap().bombs_around();
    assert_eq!(4, bombs_around);
}

#[test]
fn there_are_five_bombs_around() {
    // arrange
    let mut sut = Game::new(3, 3, 5);
    sut.plant_bomb((0, 0)).unwrap(); // top left
    sut.plant_bomb((0, 1)).unwrap(); // top center
    sut.plant_bomb((0, 2)).unwrap(); // top right
    sut.plant_bomb((1, 2)).unwrap(); // center right
    sut.plant_bomb((2, 2)).unwrap(); // bottom right

    // act
    sut.open((1, 1)).unwrap();

    // assert
    let bombs_around = sut.cell((1, 1)).unwrap().bombs_around();
    assert_eq!(5, bombs_around);
}

#[test]
fn there_are_six_bombs_around() {
    // arrange
    let mut sut = Game::new(3, 3, 6);
    sut.plant_bomb((0, 0)).unwrap(); // top left
    sut.plant_bomb((0, 1)).unwrap(); // top center
    sut.plant_bomb((0, 2)).unwrap(); // top right
    sut.plant_bomb((1, 2)).unwrap(); // center right
    sut.plant_bomb((2, 1)).unwrap(); // center bottom
    sut.plant_bomb((2, 2)).unwrap(); // bottom right

    // act
    sut.open((1, 1)).unwrap();

    // assert
    let bombs_around = sut.cell((1, 1)).unwrap().bombs_around();
    assert_eq!(6, bombs_around);
}

#[test]
fn there_are_seven_bombs_around() {
    // arrange
    let mut sut = Game::new(3, 3, 7);

    sut.plant_bomb((0, 0)).unwrap(); // top left
    sut.plant_bomb((0, 1)).unwrap(); // top center
    sut.plant_bomb((0, 2)).unwrap(); // top right
    sut.plant_bomb((1, 2)).unwrap(); // center right
    sut.plant_bomb((2, 0)).unwrap(); // bottom left
    sut.plant_bomb((2, 1)).unwrap(); // center bottom
    sut.plant_bomb((2, 2)).unwrap(); // bottom right

    // act
    sut.open((1, 1)).unwrap();

    // assert
    let bombs_around = sut.cell((1, 1)).unwrap().bombs_around();
    assert_eq!(7, bombs_around);
}

#[test]
fn there_are_eight_bombs_around() {
    // arrange
    let mut sut = Game::new(3, 3, 8);
    sut.plant_bomb((0, 0)).unwrap(); // top left
    sut.plant_bomb((0, 1)).unwrap(); // top center
    sut.plant_bomb((0, 2)).unwrap(); // top right
    sut.plant_bomb((1, 0)).unwrap(); // center left
    sut.plant_bomb((1, 2)).unwrap(); // center right
    sut.plant_bomb((2, 0)).unwrap(); // bottom left
    sut.plant_bomb((2, 1)).unwrap(); // center bottom
    sut.plant_bomb((2, 2)).unwrap(); // bottom right

    // act
    sut.open((1, 1)).unwrap();

    // assert
    let bombs_around = sut.cell((1, 1)).unwrap().bombs_around();
    assert_eq!(8, bombs_around);
}

#[test]
fn empty_neighbours_are_shown_when_an_empty_cell_is_open() {
    // arrange
    let rows = 4;
    let cols = 4;

    let mut sut = Game::new(rows, cols, 0);

    // act
    sut.plant_bomb((3, 3)).unwrap(); // bottom right

    sut.open((0, 0)).unwrap(); // top left

    // assert
    // all the cells, but the bottom right must be shown
    for x in 0..rows {
        for y in 0..cols {
            if x != 3 && y != 3 {
                assert!(sut.cell((x, y)).unwrap().is_shown());
            }
        }
    }
}
