use tile_merge::ai::{candidates, count_reaching, move_children, roughness, spawn_children, tile_log_exec, AIPlayer, Player, Report, ExpectiMax, Move, RandomPlayer, SpawnCandidate, State};
use tile_merge::game::{Action, Board, Summary};

fn sample_board() -> Board {
    let mut board = Board::empty();
    board.vec = vec![0, 2, 4, 2, 0, 2, 0, 2, 0, 4, 4, 2, 0, 4, 2, 2];
    board
}

#[test]
fn test_ExpectiMax_simple() {
    let board = sample_board();
    let e = ExpectiMax::new(3, 16).unwrap();
    assert_eq!(e.max_depth, 3);
    let left = board.make_move(Action::Left);
    assert_eq!(left.vec, vec![2, 4, 2, 0, 4, 0, 0, 0, 8, 2, 0, 0, 4, 4, 0, 0]);
}

#[test]
fn zero_samples_are_rejected() {
    assert!(ExpectiMax::new(3, 0).is_none());
    assert!(ExpectiMax::new(0, 1).is_some());
}

#[test]
fn depth_zero_root_is_leaf() {
    let e = ExpectiMax::new(0, 4).unwrap();
    let s = State::from_board(sample_board());
    assert!(e.is_leaf(&s));
    let e = ExpectiMax::new(2, 4).unwrap();
    assert!(!e.is_leaf(&s));
    let deep = State::new(Move::Direction(Action::Up), 2, sample_board());
    assert!(e.is_leaf(&deep));
}

#[test]
fn candidates_list_twos_then_fours() {
    let mut board = Board::empty();
    board.vec = vec![2; 16];
    board.vec[3] = 0;
    board.vec[9] = 0;
    let c = candidates(&board);
    assert_eq!(
        c,
        vec![
            SpawnCandidate { index: 3, value: 2, tenths: 9 },
            SpawnCandidate { index: 9, value: 2, tenths: 9 },
            SpawnCandidate { index: 3, value: 4, tenths: 1 },
            SpawnCandidate { index: 9, value: 4, tenths: 1 },
        ]
    );
}

#[test]
fn full_enumeration_is_deterministic() {
    let board = sample_board();
    let e = ExpectiMax::new(3, 10).unwrap();
    let first = e.select_candidates(&board);
    assert_eq!(first.len(), 10);
    for _ in 0..10 {
        assert_eq!(e.select_candidates(&board), first);
    }
    assert_eq!(first, candidates(&board));
}

#[test]
fn sampling_takes_distinct_candidates() {
    let board = Board::empty();
    let e = ExpectiMax::new(3, 5).unwrap();
    let all = candidates(&board);
    assert_eq!(all.len(), 32);
    for _ in 0..20 {
        let s = e.select_candidates(&board);
        assert_eq!(s.len(), 5);
        for (i, c) in s.iter().enumerate() {
            assert!(all.contains(c));
            assert!(!s[i + 1..].contains(c));
        }
    }
}

#[test]
fn heuristic_features_on_sample_board() {
    let board = sample_board();
    let f = ExpectiMax::features(&board);
    assert_eq!(f.openness, 10);
    assert_eq!(f.near_game_over, 0);
    assert_eq!(f.squared_sum, 4 * 7 + 16 * 4);
    // best tile 4: centre cells (1,1)=2, (2,1)=0, (1,2)=4, (2,2)=4
    assert_eq!(f.center_penalty, 3 * (-4 - 6 - 6));
}

#[test]
fn near_game_over_penalties() {
    let mut board = Board::empty();
    board.vec = vec![2, 4, 2, 4, 4, 2, 4, 2, 2, 4, 2, 4, 4, 2, 4, 2];
    assert_eq!(ExpectiMax::features(&board).near_game_over, -100);
    board.vec[0] = 0;
    assert_eq!(ExpectiMax::features(&board).near_game_over, -14);
    board.vec[1] = 0;
    assert_eq!(ExpectiMax::features(&board).near_game_over, -7);
    board.vec[2] = 0;
    assert_eq!(ExpectiMax::features(&board).near_game_over, 0);
}

#[test]
fn empty_board_centre_penalty() {
    let f = ExpectiMax::features(&Board::empty());
    assert_eq!(f.center_penalty, 3 * 4 * (-10));
    assert_eq!(f.squared_sum, 0);
    assert_eq!(f.openness, 32);
}

#[test]
fn random_player_picks_a_legal_action() {
    let mut board = Board::empty();
    board.vec[0] = 2;
    for _ in 0..20 {
        let a = RandomPlayer.next_action(&board);
        assert!(a == Action::Down || a == Action::Right);
    }
}

#[test]
fn move_labels() {
    let c = SpawnCandidate { index: 4, value: 2, tenths: 9 };
    assert_eq!(Move::Space(c).space(), c);
    assert_eq!(Move::Direction(Action::Left).dir(), Action::Left);
}

#[test]
fn reports_reaching_thresholds() {
    let mut p = Player::new(RandomPlayer);
    assert!(p.reports.is_empty());
    for best in [512u64, 1024, 2048, 4096, 8192, 1024] {
        p.reports.push(Report::new(10, Summary { best_tile: best }));
    }
    assert_eq!(count_reaching(&p.reports, 1024), 5);
    assert_eq!(count_reaching(&p.reports, 2048), 3);
    assert_eq!(count_reaching(&p.reports, 8192), 1);
    assert_eq!(count_reaching(&p.reports, 16384), 0);
    assert_eq!(p.reports[0].moves, 10);
}

#[test]
fn tile_logarithms() {
    assert_eq!(tile_log_exec(0), 0);
    assert_eq!(tile_log_exec(1), 0);
    assert_eq!(tile_log_exec(2), 1);
    assert_eq!(tile_log_exec(3), 1);
    assert_eq!(tile_log_exec(1024), 10);
    assert_eq!(tile_log_exec(u64::MAX), 63);
}

#[test]
fn roughness_counts_adjacent_differences() {
    let mut board = Board::empty();
    assert_eq!(roughness(&board), 0);
    board.vec[0] = 2;
    assert_eq!(roughness(&board), 2);
    board.vec[5] = 8;
    assert_eq!(roughness(&board), 14);
    assert_eq!(ExpectiMax::features(&board).roughness, 14);
    board.vec[1] = 8;
    // pairs (0,1): 2, (1,2): 3, (1,5): 0, (4,5): 3, (5,6): 3, (5,9): 3, (0,4): 1
    assert_eq!(roughness(&board), 15);
}

#[test]
fn children_of_max_and_chance_nodes() {
    let root = State::from_board(sample_board());
    let kids = move_children(&root);
    let actions = root.board.get_actions();
    assert_eq!(kids.len(), actions.len());
    for (k, a) in kids.iter().zip(actions.iter()) {
        assert_eq!(k.action, Move::Direction(*a));
        assert_eq!(k.depth, 1);
        assert_eq!(k.board, root.board.make_move(*a));
    }
    let cands = candidates(&kids[0].board);
    let spawns = spawn_children(&kids[0], &cands);
    assert_eq!(spawns.len(), cands.len());
    for (s, c) in spawns.iter().zip(cands.iter()) {
        assert_eq!(s.action, Move::Space(*c));
        assert_eq!(s.depth, 2);
        assert_eq!(s.board.vec[c.index], c.value);
        assert_eq!(s.board.count_empty(), kids[0].board.count_empty() - 1);
    }
}
