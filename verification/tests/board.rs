use taquin::{Cell, Move, Taquin, TaquinError, MAX_SIZE};

fn values(t: &Taquin) -> Vec<Vec<u32>> {
    let n = t.size();
    (0..n)
        .map(|y| (0..n).map(|x| t.cell(x, y).get_value()).collect())
        .collect()
}

#[test]
fn solved_board_of_side_three() {
    let t = Taquin::new(3).unwrap();
    assert_eq!(t.size(), 3);
    assert_eq!(values(&t), vec![vec![1, 2, 3], vec![4, 5, 6], vec![7, 8, 0]]);
    assert_eq!(t.empty_coord(), (2, 2));
    assert_eq!(t.cell(2, 2), Cell::Empty);
    assert_eq!(t.cell(1, 0), Cell::Num(2));
}

#[test]
fn solved_boards_hold_each_number_once() {
    for size in 2..=6 {
        let t = Taquin::new(size).unwrap();
        assert_eq!(t.empty_coord(), (size - 1, size - 1));
        let mut all: Vec<u32> = values(&t).into_iter().flatten().collect();
        all.sort();
        let want: Vec<u32> = (0..(size * size) as u32).collect();
        assert_eq!(all, want);
    }
}

#[test]
fn sides_under_two_are_turned_down() {
    assert_eq!(Taquin::new(0).err(), Some(TaquinError::InvalidSize));
    assert_eq!(Taquin::new(1).err(), Some(TaquinError::InvalidSize));
    assert_eq!(Taquin::new_rand(0).err(), Some(TaquinError::InvalidSize));
    assert_eq!(Taquin::new_rand(1).err(), Some(TaquinError::InvalidSize));
    assert!(Taquin::new(2).is_ok());
    assert!(MAX_SIZE >= 2);
}

#[test]
fn moves_open_in_the_corners_and_inside() {
    let mut t = Taquin::new(3).unwrap();
    assert_eq!(t.available_move(), vec![Move::Up, Move::Left]);
    assert!(t.make_move(Move::Left));
    assert_eq!(t.available_move(), vec![Move::Up, Move::Left, Move::Right]);
    assert!(t.make_move(Move::Up));
    assert_eq!(
        t.available_move(),
        vec![Move::Up, Move::Left, Move::Down, Move::Right]
    );
    assert!(t.make_move(Move::Up));
    assert_eq!(t.available_move(), vec![Move::Left, Move::Down, Move::Right]);
    assert!(t.make_move(Move::Left));
    assert_eq!(t.available_move(), vec![Move::Down, Move::Right]);
}

#[test]
fn available_moves_keep_the_blank_on_the_grid() {
    let mut t = Taquin::new(4).unwrap();
    let walk = [
        Move::Up,
        Move::Up,
        Move::Up,
        Move::Left,
        Move::Left,
        Move::Left,
        Move::Down,
        Move::Down,
        Move::Down,
        Move::Right,
        Move::Up,
    ];
    for step in walk {
        let (x, y) = t.empty_coord();
        for m in t.available_move() {
            assert!(t.can_move(m));
            match m {
                Move::Up => assert!(y > 0),
                Move::Down => assert!(y + 1 < 4),
                Move::Left => assert!(x > 0),
                Move::Right => assert!(x + 1 < 4),
            }
        }
        assert!(t.make_move(step));
    }
}

#[test]
fn a_move_slides_one_tile() {
    let mut t = Taquin::new(3).unwrap();
    assert!(t.make_move(Move::Left));
    assert_eq!(values(&t), vec![vec![1, 2, 3], vec![4, 5, 6], vec![7, 0, 8]]);
    assert_eq!(t.empty_coord(), (1, 2));
    assert!(t.make_move(Move::Up));
    assert_eq!(values(&t), vec![vec![1, 2, 3], vec![4, 0, 6], vec![7, 5, 8]]);
    assert_eq!(t.empty_coord(), (1, 1));
    assert!(t.make_move(Move::Right));
    assert_eq!(values(&t), vec![vec![1, 2, 3], vec![4, 6, 0], vec![7, 5, 8]]);
    assert!(t.make_move(Move::Down));
    assert_eq!(values(&t), vec![vec![1, 2, 3], vec![4, 6, 8], vec![7, 5, 0]]);
}

#[test]
fn an_illegal_move_changes_nothing() {
    let mut t = Taquin::new(3).unwrap();
    let before = t.clone();
    assert!(!t.make_move(Move::Down));
    assert!(t == before);
    assert!(!t.make_move(Move::Right));
    assert!(t == before);
    assert!(!t.reverse_move(Move::Up));
    assert!(t == before);
    assert!(!t.reverse_move(Move::Left));
    assert!(t == before);
}

#[test]
fn a_move_and_its_reverse_give_the_board_back() {
    let mut t = Taquin::new(3).unwrap();
    assert!(t.make_move(Move::Left));
    assert!(t.make_move(Move::Up));
    for m in Move::get_all_move() {
        let before = t.clone();
        assert!(t.make_move(m));
        assert!(t != before);
        assert!(t.reverse_move(m));
        assert!(t == before);
        assert_eq!(t.empty_coord(), before.empty_coord());
    }
}

#[test]
fn reverse_move_goes_the_other_way() {
    let mut t = Taquin::new(3).unwrap();
    assert!(t.reverse_move(Move::Right));
    assert_eq!(t.empty_coord(), (1, 2));
    assert!(t.reverse_move(Move::Down));
    assert_eq!(t.empty_coord(), (1, 1));
    assert!(t.reverse_move(Move::Left));
    assert_eq!(t.empty_coord(), (2, 1));
    assert!(t.reverse_move(Move::Up));
    assert_eq!(t.empty_coord(), (2, 2));
    assert_eq!(Move::Up.opposite(), Move::Down);
    assert_eq!(Move::Left.opposite(), Move::Right);
    assert_eq!(Move::Down.opposite(), Move::Up);
    assert_eq!(Move::Right.opposite(), Move::Left);
}

#[test]
fn the_four_moves_in_order() {
    assert_eq!(
        Move::get_all_move(),
        vec![Move::Up, Move::Left, Move::Down, Move::Right]
    );
}

#[test]
fn a_copy_is_independent() {
    let t = Taquin::new(3).unwrap();
    let mut u = t.clone();
    assert!(u == t);
    assert!(u.make_move(Move::Up));
    assert!(u != t);
    assert_eq!(t.empty_coord(), (2, 2));
    assert!(Taquin::new(2).unwrap() != Taquin::new(3).unwrap());
}

#[test]
fn scrambled_board_holds_each_number_once() {
    let t = Taquin::new_rand(3).unwrap();
    assert_eq!(t.size(), 3);
    let mut all: Vec<u32> = values(&t).into_iter().flatten().collect();
    all.sort();
    assert_eq!(all, vec![0, 1, 2, 3, 4, 5, 6, 7, 8]);
    let (x, y) = t.empty_coord();
    assert_eq!(t.cell(x, y), Cell::Empty);
    // 9000 moves were made: the blank is on a place of the parity of the corner.
    assert_eq!((x + y) % 2, 0);
}

#[test]
fn cell_values() {
    assert_eq!(Cell::Empty.get_value(), 0);
    assert_eq!(Cell::Num(7).get_value(), 7);
}

#[test]
fn hamming_counts_the_places_that_differ() {
    let goal = Taquin::new(3).unwrap();
    let mut t = Taquin::new(3).unwrap();
    assert_eq!(Taquin::heuristic_hamming(&t, &goal), Ok(0));
    t.make_move(Move::Left);
    assert_eq!(Taquin::heuristic_hamming(&t, &goal), Ok(2));
    t.make_move(Move::Left);
    assert_eq!(Taquin::heuristic_hamming(&t, &goal), Ok(3));
    t.make_move(Move::Up);
    assert_eq!(Taquin::heuristic_hamming(&t, &goal), Ok(4));
    assert_eq!(Taquin::heuristic_hamming(&goal, &t), Ok(4));
    assert_eq!(Taquin::heuristic_hamming(&t, &t), Ok(0));
}

#[test]
fn manhattan_adds_up_the_ways_of_all_cells() {
    let goal = Taquin::new(3).unwrap();
    let mut t = Taquin::new(3).unwrap();
    assert_eq!(Taquin::heuristic_manhattan(&t, &goal), Ok(0));
    t.make_move(Move::Left);
    // tile 8 is one step off, and so is the blank
    assert_eq!(Taquin::heuristic_manhattan(&t, &goal), Ok(2));
    t.make_move(Move::Left);
    // tiles 7 and 8 are one step off each, the blank two
    assert_eq!(Taquin::heuristic_manhattan(&t, &goal), Ok(4));
    t.make_move(Move::Up);
    // tiles 4, 7 and 8 one step each, the blank three
    assert_eq!(Taquin::heuristic_manhattan(&t, &goal), Ok(6));
    assert_eq!(Taquin::heuristic_manhattan(&goal, &t), Ok(6));
    assert_eq!(Taquin::heuristic_manhattan(&t, &t), Ok(0));
}

#[test]
fn estimates_stay_within_twice_the_moves_made() {
    let goal = Taquin::new(4).unwrap();
    let mut t = Taquin::new(4).unwrap();
    let walk = [
        Move::Up,
        Move::Left,
        Move::Up,
        Move::Left,
        Move::Down,
        Move::Left,
        Move::Up,
        Move::Up,
        Move::Right,
    ];
    for (k, m) in walk.iter().enumerate() {
        assert!(t.make_move(*m));
        assert!(Taquin::heuristic_hamming(&t, &goal).unwrap() as usize <= 2 * (k + 1));
        assert!(Taquin::heuristic_manhattan(&t, &goal).unwrap() as usize <= 2 * (k + 1));
    }
}

#[test]
fn locate_finds_each_cell() {
    let mut t = Taquin::new(3).unwrap();
    t.make_move(Move::Up);
    assert_eq!(t.locate(Cell::Empty), (2, 1));
    assert_eq!(t.locate(Cell::Num(6)), (2, 2));
    assert_eq!(t.locate(Cell::Num(1)), (0, 0));
}

fn columns(rows: &[&[u32]]) -> Vec<Vec<Cell>> {
    let n = rows.len();
    (0..n)
        .map(|x| {
            (0..n)
                .map(|y| match rows[y][x] {
                    0 => Cell::Empty,
                    v => Cell::Num(v),
                })
                .collect()
        })
        .collect()
}

#[test]
fn from_cells_takes_the_grid_of_a_board() {
    let t = Taquin::from_cells(columns(&[&[1, 2, 3], &[4, 5, 6], &[7, 8, 0]])).unwrap();
    assert!(t == Taquin::new(3).unwrap());
    assert_eq!(t.size(), 3);
    let t = Taquin::from_cells(columns(&[&[3, 1], &[0, 2]])).unwrap();
    assert_eq!(t.empty_coord(), (0, 1));
    assert_eq!(values(&t), vec![vec![3, 1], vec![0, 2]]);
    assert_eq!(t.available_move(), vec![Move::Up, Move::Right]);
}

#[test]
fn from_cells_turns_down_what_is_no_board() {
    // too small
    assert!(Taquin::from_cells(vec![]).is_none());
    assert!(Taquin::from_cells(vec![vec![Cell::Empty]]).is_none());
    // not square
    assert!(Taquin::from_cells(vec![
        vec![Cell::Num(1), Cell::Num(2)],
        vec![Cell::Num(3), Cell::Empty, Cell::Num(4)]
    ])
    .is_none());
    // a number twice
    assert!(Taquin::from_cells(columns(&[&[1, 1], &[2, 0]])).is_none());
    // no blank, and a number too large
    assert!(Taquin::from_cells(columns(&[&[1, 2], &[3, 4]])).is_none());
    // two blanks
    assert!(Taquin::from_cells(columns(&[&[1, 0], &[2, 0]])).is_none());
    // a number missing
    assert!(Taquin::from_cells(columns(&[&[1, 2], &[5, 0]])).is_none());
    // the number 0 is not the blank
    assert!(Taquin::from_cells(vec![
        vec![Cell::Num(1), Cell::Num(3)],
        vec![Cell::Num(2), Cell::Num(0)]
    ])
    .is_none());
}

#[test]
fn keys_follow_the_grid() {
    let a = Taquin::new(3).unwrap();
    let mut b = Taquin::new(3).unwrap();
    assert_eq!(a.key(), b.key());
    b.make_move(Move::Up);
    assert_ne!(a.key(), b.key());
    b.make_move(Move::Down);
    assert_eq!(a.key(), b.key());
    // 1, 3 down the first column, then 2 and the blank
    let two = Taquin::new(2).unwrap();
    assert_eq!(two.key(), ((1 * 31 + 3) * 31 + 2) * 31);
}

#[test]
fn manhattan_is_no_less_than_hamming() {
    let goal = Taquin::new(4).unwrap();
    let mut t = Taquin::new(4).unwrap();
    let walk = [
        Move::Left,
        Move::Left,
        Move::Up,
        Move::Right,
        Move::Up,
        Move::Left,
        Move::Left,
        Move::Up,
        Move::Right,
        Move::Down,
    ];
    for m in walk {
        assert!(t.make_move(m));
        assert!(
            Taquin::heuristic_hamming(&t, &goal).unwrap()
                <= Taquin::heuristic_manhattan(&t, &goal).unwrap()
        );
    }
    // 2  5  3  4
    // 1  _  6  8
    // 9 11  7 12
    // 13 10 14 15
    assert_eq!(Taquin::heuristic_hamming(&t, &goal), Ok(10));
    assert_eq!(Taquin::heuristic_manhattan(&t, &goal), Ok(14));
}

#[test]
fn estimates_turn_down_boards_of_different_sides() {
    let two = Taquin::new(2).unwrap();
    let three = Taquin::new(3).unwrap();
    assert_eq!(
        Taquin::heuristic_hamming(&two, &three),
        Err(TaquinError::SizeMismatch)
    );
    assert_eq!(
        Taquin::heuristic_hamming(&three, &two),
        Err(TaquinError::SizeMismatch)
    );
    assert_eq!(
        Taquin::heuristic_manhattan(&two, &three),
        Err(TaquinError::SizeMismatch)
    );
    assert_eq!(
        Taquin::heuristic_manhattan(&three, &two),
        Err(TaquinError::SizeMismatch)
    );
}
