use tile_merge::game::{get_first_free, Action, Board, Cord};

#[test]
fn test_Board_get_empty() {
    let mut board = Board::empty();
    board.vec[2] = 16;
    board.vec[5] = 16;
    let empty = board.get_empty();
    assert_eq!(empty, vec![0, 1, 3, 4, 6, 7, 8, 9, 10, 11, 12, 13, 14, 15]);
}

#[test]
fn test_Board_new() {
    let board = Board::new();
    assert_eq!(board.count_empty(), 14);
}

#[test]
fn test_first_free() {
    let mut board = Board::empty();
    board.vec[2] = 2;
    board.vec[5] = 2;
    assert_eq!(get_first_free(Cord(2, 0), Action::Left, &board), Cord(0, 0));
    assert_eq!(get_first_free(Cord(1, 1), Action::Left, &board), Cord(0, 1));
    assert_eq!(get_first_free(Cord(2, 0), Action::Up, &board), Cord(2, 0));
    assert_eq!(get_first_free(Cord(1, 1), Action::Down, &board), Cord(1, 3));
    board.vec[6] = 2;
    assert_eq!(get_first_free(Cord(2, 1), Action::Up, &board), Cord(2, 1));
}

#[test]
fn test_Board_get_actions() {
    let mut board = Board::empty();
    *board.get_mut(Cord(1, 0)) = 2;
    *board.get_mut(Cord(1, 1)) = 4;
    *board.get_mut(Cord(1, 2)) = 8;
    *board.get_mut(Cord(1, 3)) = 16;
    let actions = board.get_actions();
    assert_eq!(actions, vec![Action::Left, Action::Right]);
    *board.get_mut(Cord(0, 0)) = 3;
    *board.get_mut(Cord(0, 1)) = 5;
    *board.get_mut(Cord(0, 2)) = 9;
    *board.get_mut(Cord(0, 3)) = 17;
    let actions = board.get_actions();
    assert_eq!(actions, vec![Action::Right]);
}

#[test]
fn test_simple_move() {
    let mut board = Board::empty();
    board.vec[2] = 4;
    board.vec[5] = 2;
    let board_left = board.make_move(Action::Left);
    let left = vec![4, 0, 0, 0, 2, 0, 0, 0, 0, 0, 0, 0, 0, 0, 0, 0];
    assert_eq!(board_left.vec, left);
    let board_down = board.make_move(Action::Down);
    let down = vec![0, 0, 0, 0, 0, 0, 0, 0, 0, 0, 0, 0, 0, 2, 4, 0];
    assert_eq!(board_down.vec, down);
}

#[test]
fn test_simple_merge() {
    let mut board = Board::empty();
    *board.get_mut(Cord(1, 1)) = 2;
    *board.get_mut(Cord(1, 2)) = 2;
    let board_up = board.make_move(Action::Up);
    let up = vec![0, 4, 0, 0, 0, 0, 0, 0, 0, 0, 0, 0, 0, 0, 0, 0];
    assert_eq!(board_up.vec, up);
}

#[test]
fn test_simple_merge_crash1() {
    let mut board = Board::empty();
    *board.get_mut(Cord(3, 3)) = 2;
    *board.get_mut(Cord(0, 3)) = 2;
    let board_new = board.make_move(Action::Left);
    let new = vec![0, 0, 0, 0, 0, 0, 0, 0, 0, 0, 0, 0, 4, 0, 0, 0];
    assert_eq!(board_new.vec, new);
}

#[test]
fn test_multi_merge() {
    let mut board = Board::empty();
    *board.get_mut(Cord(1, 1)) = 2;
    *board.get_mut(Cord(1, 2)) = 2;
    *board.get_mut(Cord(1, 3)) = 4;
    let board_up = board.make_move(Action::Up);
    let up = vec![0, 4, 0, 0, 0, 4, 0, 0, 0, 0, 0, 0, 0, 0, 0, 0];
    assert_eq!(board_up.vec, up);
}

#[test]
fn move_right_from_corner_lands_in_last_column() {
    let board = Board::empty().add_space(0, 2);
    let moved = board.make_move(Action::Right);
    let mut expected = vec![0u64; 16];
    expected[3] = 2;
    assert_eq!(moved.vec, expected);
}

#[test]
fn run_of_four_merges_into_two() {
    let mut board = Board::empty();
    board.vec = vec![2, 2, 2, 2, 0, 0, 0, 0, 0, 0, 0, 0, 0, 0, 0, 0];
    let moved = board.make_move(Action::Left);
    assert_eq!(moved.vec, vec![4, 4, 0, 0, 0, 0, 0, 0, 0, 0, 0, 0, 0, 0, 0, 0]);
}

#[test]
fn run_of_three_leaves_one_over() {
    let mut board = Board::empty();
    board.vec = vec![0, 2, 2, 2, 0, 0, 0, 0, 0, 0, 0, 0, 0, 0, 0, 0];
    let moved = board.make_move(Action::Left);
    assert_eq!(moved.vec, vec![4, 2, 0, 0, 0, 0, 0, 0, 0, 0, 0, 0, 0, 0, 0, 0]);
    let moved = board.make_move(Action::Right);
    assert_eq!(moved.vec, vec![0, 0, 2, 4, 0, 0, 0, 0, 0, 0, 0, 0, 0, 0, 0, 0]);
}

#[test]
fn merged_tile_does_not_merge_again() {
    let mut board = Board::empty();
    board.vec = vec![4, 2, 2, 0, 0, 0, 0, 0, 0, 0, 0, 0, 0, 0, 0, 0];
    let moved = board.make_move(Action::Left);
    assert_eq!(moved.vec, vec![4, 4, 0, 0, 0, 0, 0, 0, 0, 0, 0, 0, 0, 0, 0, 0]);
}

#[test]
fn legal_actions_are_the_changing_moves() {
    let mut board = Board::empty();
    board.vec = vec![0, 2, 4, 2, 0, 2, 0, 2, 0, 4, 4, 2, 0, 4, 2, 2];
    let actions = board.get_actions();
    for a in [Action::Up, Action::Down, Action::Left, Action::Right] {
        assert_eq!(actions.contains(&a), board.make_move(a) != board);
        assert_eq!(board.moves_with(a), board.make_move(a) != board);
    }
}

#[test]
fn full_board_without_pairs_is_over() {
    let mut board = Board::empty();
    board.vec = vec![2, 4, 2, 4, 4, 2, 4, 2, 2, 4, 2, 4, 4, 2, 4, 2];
    assert!(board.get_actions().is_empty());
    assert_eq!(board.count_empty(), 0);
}

#[test]
fn add_random_fills_one_empty_cell() {
    let mut board = Board::empty();
    board.vec = vec![2, 4, 0, 8, 0, 0, 16, 0, 0, 0, 0, 0, 0, 0, 0, 32];
    for _ in 0..50 {
        let next = board.add_random();
        assert_eq!(next.count_empty(), board.count_empty() - 1);
        let changed: Vec<usize> = (0..16).filter(|&k| next.vec[k] != board.vec[k]).collect();
        assert_eq!(changed.len(), 1);
        assert_eq!(board.vec[changed[0]], 0);
        assert!(next.vec[changed[0]] == 2 || next.vec[changed[0]] == 4);
    }
}

#[test]
fn best_tile_and_summary() {
    let mut board = Board::empty();
    assert_eq!(board.get_best_tile(), 0);
    board.vec[7] = 64;
    board.vec[3] = 8;
    assert_eq!(board.get_best_tile(), 64);
    assert_eq!(board.summary().best_tile, 64);
}

#[test]
fn get_reads_row_major() {
    let mut board = Board::empty();
    board.vec[6] = 8;
    assert_eq!(board.get(Cord(2, 1)), 8);
    assert_eq!(board.get(Cord(1, 2)), 0);
}

#[test]
fn cord_validity_and_neighbours() {
    assert!(Cord(0, 3).is_valid());
    assert!(!Cord(4, 0).is_valid());
    assert!(!Cord(0, -1).is_valid());
    assert_eq!(Cord(1, 1).over(Action::Up), Some(Cord(1, 0)));
    assert_eq!(Cord(1, 0).over(Action::Up), None);
    assert_eq!(Cord(3, 2).over(Action::Right), None);
    assert_eq!(Cord(3, 2).over(Action::Left), Some(Cord(2, 2)));
    assert_eq!(Action::Down.dir(), (0, 1));
    assert_eq!(Action::Left.min_cord(Cord(2, 3)), Cord(0, 3));
    assert_eq!(Action::Down.min_cord(Cord(2, 1)), Cord(2, 3));
}

#[test]
fn traversal_visits_lines_from_the_edge() {
    let t = tile_merge::game::get_traversal(Action::Down);
    assert_eq!(t.len(), 16);
    assert_eq!(t[0], Cord(3, 3));
    assert_eq!(t[1], Cord(3, 2));
    assert_eq!(t[4], Cord(2, 3));
    let t = tile_merge::game::get_traversal(Action::Left);
    assert_eq!(t[1], Cord(1, 0));
    assert_eq!(t[4], Cord(0, 1));
}

#[test]
fn bounded_tiles() {
    let mut board = Board::empty();
    assert!(board.is_bounded());
    board.vec[0] = tile_merge::game::MAX_TILE + 1;
    assert!(!board.is_bounded());
}
