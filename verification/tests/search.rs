use std::rc::Rc;

use taquin::{astar, Cell, Move, Node, Taquin, TaquinError};

fn solved(size: usize) -> Taquin {
    Taquin::new(size).unwrap()
}

fn after(size: usize, moves: &[Move]) -> Taquin {
    let mut t = solved(size);
    for m in moves {
        assert!(t.make_move(*m));
    }
    t
}

fn no_move_undone_at_once(moves: &[Move]) -> bool {
    moves.windows(2).all(|pair| pair[0].opposite() != pair[1])
}

fn play(start: &Taquin, moves: &[Move]) -> Taquin {
    let mut t = start.clone();
    for m in moves {
        assert!(t.make_move(*m), "the way holds an illegal move");
    }
    t
}

/// The least number of moves from `start` to `goal`, by breadth-first search.
fn shortest(start: &Taquin, goal: &Taquin) -> usize {
    let mut seen: Vec<Taquin> = vec![start.clone()];
    let mut level: Vec<Taquin> = vec![start.clone()];
    let mut depth = 0;
    loop {
        if level.iter().any(|t| t == goal) {
            return depth;
        }
        let mut next: Vec<Taquin> = Vec::new();
        for t in &level {
            for m in t.available_move() {
                let mut u = t.clone();
                assert!(u.make_move(m));
                if !seen.contains(&u) {
                    seen.push(u.clone());
                    next.push(u);
                }
            }
        }
        assert!(!next.is_empty(), "the goal cannot be reached");
        level = next;
        depth += 1;
    }
}

#[test]
fn node_succesors_test() {
    let taquin = Taquin::new(3).unwrap();
    let mut taquin1 = Taquin::new(3).unwrap();
    taquin1.make_move(Move::Left);
    let mut taquin2 = Taquin::new(3).unwrap();
    taquin2.make_move(Move::Up);

    let n0 = Node::new(taquin, 0, 0, None, None);

    let children = n0.succesors();

    let n0_ref = Rc::new(n0);

    let n1 = Node::new(taquin1, 0, 0, Some(Move::Left), Some(Rc::clone(&n0_ref)));
    let n2 = Node::new(taquin2, 0, 0, Some(Move::Up), Some(Rc::clone(&n0_ref)));

    assert_eq!(children.len(), 2, "Find 2 children");

    assert!(
        children.contains(&n1) && children.contains(&n2),
        "Children for Up, One for Left"
    );
}

#[test]
fn node_reconstruct_test() {
    let dummy_vec = vec![
        Move::Up,
        Move::Left,
        Move::Down,
        Move::Left,
        Move::Up,
        Move::Up,
    ];

    let mut taquin1 = Taquin::new(3).unwrap();

    let mut node = Node::new(taquin1.clone(), 0, 0, None, None);
    assert_eq!(Node::reconstruct_moves(&node).is_empty(), true, "root only tree");

    for m in &dummy_vec {
        assert!(taquin1.make_move(*m) == true, "make move");

        node = Node::new(taquin1.clone(), 0, 0, Some(*m), Some(Rc::new(node)));
    }

    assert_eq!(dummy_vec, Node::reconstruct_moves(&node), "reconstruction");
}

#[test]
fn astar_test() {
    let mut taquin1 = Taquin::new(3).unwrap();
    let taquin2 = Taquin::new(3).unwrap();
    taquin1.make_move(Move::Left);

    let moves = astar(&taquin1, &taquin2, &Taquin::heuristic_hamming).unwrap();

    assert_eq!(moves, vec![Move::Right], "1 move");

    taquin1.make_move(Move::Left);
    let moves = astar(&taquin1, &taquin2, &Taquin::heuristic_hamming).unwrap();

    assert_eq!(moves, vec![Move::Right, Move::Right], "2 move");

    taquin1.make_move(Move::Up);
    let moves = astar(&taquin1, &taquin2, &Taquin::heuristic_hamming).unwrap();

    assert_eq!(moves, vec![Move::Down, Move::Right, Move::Right], "3 move");

    taquin1.make_move(Move::Up);
    let moves = astar(&taquin1, &taquin2, &Taquin::heuristic_hamming).unwrap();

    assert_eq!(
        moves,
        vec![Move::Down, Move::Down, Move::Right, Move::Right],
        "4 move"
    );

    taquin1.make_move(Move::Right);
    let moves = astar(&taquin1, &taquin2, &Taquin::heuristic_hamming).unwrap();

    assert_eq!(
        moves,
        vec![Move::Left, Move::Down, Move::Down, Move::Right, Move::Right],
        "5 move"
    );

    taquin1.make_move(Move::Right);
    let moves = astar(&taquin1, &taquin2, &Taquin::heuristic_hamming).unwrap();

    assert_eq!(
        moves,
        vec![
            Move::Left,
            Move::Left,
            Move::Down,
            Move::Down,
            Move::Right,
            Move::Right
        ],
        "6 move"
    );
}

#[test]
fn astar_of_a_solved_board_is_empty() {
    let t = solved(3);
    assert_eq!(astar(&t, &t, &Taquin::heuristic_hamming), Ok(vec![]));
    assert_eq!(astar(&t, &t, &Taquin::heuristic_manhattan), Ok(vec![]));
}

#[test]
fn astar_with_manhattan_undoes_three_moves() {
    let start = after(3, &[Move::Left, Move::Left, Move::Up]);
    let moves = astar(&start, &solved(3), &Taquin::heuristic_manhattan).unwrap();
    assert_eq!(moves, vec![Move::Down, Move::Right, Move::Right]);
}

#[test]
fn astar_turns_down_boards_of_different_sides() {
    assert_eq!(
        astar(&solved(2), &solved(3), &Taquin::heuristic_hamming),
        Err(TaquinError::SizeMismatch)
    );
    assert_eq!(
        astar(&solved(4), &solved(3), &Taquin::heuristic_manhattan),
        Err(TaquinError::SizeMismatch)
    );
}

#[test]
fn astar_leads_to_a_goal_that_is_not_solved() {
    let start = after(3, &[Move::Up, Move::Left, Move::Down]);
    let goal = after(3, &[Move::Left, Move::Up, Move::Up, Move::Right]);
    let moves = astar(&start, &goal, &Taquin::heuristic_manhattan).unwrap();
    assert!(play(&start, &moves) == goal);
    let moves = astar(&start, &goal, &Taquin::heuristic_hamming).unwrap();
    assert!(play(&start, &moves) == goal);
}

#[test]
fn astar_solves_every_board_of_side_two() {
    let goal = solved(2);
    let mut t = solved(2);
    // The blank goes round: twelve boards, all there are to reach.
    let round = [Move::Left, Move::Up, Move::Right, Move::Down];
    for i in 0..12 {
        assert!(t.make_move(round[i % 4]));
        let best = shortest(&t, &goal);
        let by_hamming = astar(&t, &goal, &Taquin::heuristic_hamming).unwrap();
        assert!(play(&t, &by_hamming) == goal);
        assert_eq!(by_hamming.len(), best);
        let by_manhattan = astar(&t, &goal, &Taquin::heuristic_manhattan).unwrap();
        assert!(play(&t, &by_manhattan) == goal);
        assert!(no_move_undone_at_once(&by_hamming));
        assert!(no_move_undone_at_once(&by_manhattan));
    }
}

#[test]
fn astar_with_hamming_is_as_short_as_breadth_first() {
    let goal = solved(3);
    let scrambles: Vec<Vec<Move>> = vec![
        vec![Move::Up],
        vec![Move::Left, Move::Up],
        vec![Move::Up, Move::Left, Move::Down],
        vec![Move::Left, Move::Up, Move::Right, Move::Down],
        vec![Move::Up, Move::Up, Move::Left, Move::Down, Move::Left],
        vec![
            Move::Left,
            Move::Up,
            Move::Left,
            Move::Down,
            Move::Right,
            Move::Up,
            Move::Up,
        ],
    ];
    for scramble in &scrambles {
        let start = after(3, scramble);
        let moves = astar(&start, &goal, &Taquin::heuristic_hamming).unwrap();
        assert!(play(&start, &moves) == goal);
        assert_eq!(moves.len(), shortest(&start, &goal));
        for pair in moves.windows(2) {
            assert_ne!(pair[0].opposite(), pair[1], "a move is undone at once");
        }
    }
}

#[test]
fn astar_solves_a_scrambled_board() {
    let goal = solved(3);
    let start = Taquin::new_rand(3).unwrap();
    let moves = astar(&start, &goal, &Taquin::heuristic_manhattan).unwrap();
    assert!(play(&start, &moves) == goal);
    assert!(no_move_undone_at_once(&moves));
}

#[test]
fn astar_takes_any_estimate() {
    let start = after(3, &[Move::Left, Move::Up, Move::Left]);
    let goal = solved(3);
    let nothing = |_: &Taquin, _: &Taquin| -> Result<u32, TaquinError> { Ok(0) };
    let moves = astar(&start, &goal, &nothing).unwrap();
    assert_eq!(moves, vec![Move::Right, Move::Down, Move::Right]);
    let huge = |_: &Taquin, _: &Taquin| -> Result<u32, TaquinError> { Ok(u32::MAX) };
    let moves = astar(&start, &goal, &huge).unwrap();
    assert!(play(&start, &moves) == goal);
}

#[test]
fn node_keeps_what_it_was_made_with() {
    let root = Node::new(solved(3), 7, 11, None, None);
    assert_eq!(root.get_cost(), 7);
    assert_eq!(root.get_heuristic(), 11);
    assert!(*root.taquin() == solved(3));
    let mut copy = root.clone();
    copy.set_costs(1, 2);
    assert_eq!(copy.get_cost(), 1);
    assert_eq!(copy.get_heuristic(), 2);
    assert_eq!(root.get_cost(), 7);
}

#[test]
fn nodes_are_equal_by_board_alone() {
    let a = Node::new(solved(3), 0, 0, None, None);
    let b = Node::new(solved(3), 5, 9, Some(Move::Up), None);
    let c = Node::new(after(3, &[Move::Up]), 0, 0, None, None);
    assert!(a == b);
    assert!(a != c);
}

#[test]
fn successors_carry_cost_and_way_back() {
    let parent = Node::new(after(3, &[Move::Left, Move::Up]), 4, 9, Some(Move::Up), None);
    let children = parent.succesors();
    let moves = parent.taquin().available_move();
    assert_eq!(moves, vec![Move::Up, Move::Left, Move::Down, Move::Right]);
    assert_eq!(children.len(), 4);
    for (child, m) in children.iter().zip(moves) {
        assert_eq!(child.get_cost(), 4);
        assert_eq!(child.get_heuristic(), 0);
        assert_eq!(child.reconstruct_moves(), vec![m]);
        assert!(*child.taquin() == play(parent.taquin(), &[m]));
    }
}

#[test]
fn astar_runs_out_of_boards_when_two_tiles_are_swapped() {
    // 2 1
    // 3 _
    let start = Taquin::from_cells(vec![
        vec![Cell::Num(2), Cell::Num(3)],
        vec![Cell::Num(1), Cell::Empty],
    ])
    .unwrap();
    let goal = solved(2);
    assert_eq!(
        astar(&start, &goal, &Taquin::heuristic_hamming),
        Err(TaquinError::SearchExhausted)
    );
    assert_eq!(
        astar(&start, &goal, &Taquin::heuristic_manhattan),
        Err(TaquinError::SearchExhausted)
    );
    assert_eq!(
        astar(&goal, &start, &Taquin::heuristic_manhattan),
        Err(TaquinError::SearchExhausted)
    );
}

/// The number of tiles, the blank left out, that do not lie where `goal` has
/// them: an estimate that one move changes by 1 at most.
fn tiles_out_of_place(t: &Taquin, goal: &Taquin) -> Result<u32, TaquinError> {
    let n = t.size();
    let mut count = 0;
    for x in 0..n {
        for y in 0..n {
            if t.cell(x, y) != Cell::Empty && t.cell(x, y) != goal.cell(x, y) {
                count += 1;
            }
        }
    }
    Ok(count)
}

#[test]
fn astar_with_a_consistent_estimate_is_shortest() {
    let goal = solved(3);
    let scrambles: Vec<Vec<Move>> = vec![
        vec![Move::Left],
        vec![Move::Up, Move::Left, Move::Left],
        vec![Move::Left, Move::Up, Move::Right, Move::Up, Move::Left, Move::Left],
        vec![
            Move::Up,
            Move::Up,
            Move::Left,
            Move::Down,
            Move::Down,
            Move::Left,
            Move::Up,
            Move::Right,
            Move::Up,
            Move::Left,
        ],
    ];
    let nothing = |_: &Taquin, _: &Taquin| -> Result<u32, TaquinError> { Ok(0) };
    for scramble in &scrambles {
        let start = after(3, scramble);
        let best = shortest(&start, &goal);
        let moves = astar(&start, &goal, &nothing).unwrap();
        assert!(play(&start, &moves) == goal);
        assert_eq!(moves.len(), best);
        let moves = astar(&start, &goal, &tiles_out_of_place).unwrap();
        assert!(play(&start, &moves) == goal);
        assert_eq!(moves.len(), best);
    }
}
