use connect_four::AlphaBetaLevel6Solver;

#[test]
fn max_alpha_beta_table() {
    let table = AlphaBetaLevel6Solver::max_alpha_beta_init();
    assert_eq!(table[0], 21);
    assert_eq!(table[1], 21);
    assert_eq!(table[6], 18);
    assert_eq!(table[41], 1);
    for m in 0..42 {
        assert_eq!(table[m] as usize, (43 - m) / 2);
    }
}

#[test]
fn solve_immediate_win_scores_ply_best() {
    let mut solver = AlphaBetaLevel6Solver::new(1);
    solver.play_sequence("334323");
    assert_eq!(solver.solve(25), 18);
}

#[test]
fn solve_with_no_depth_is_zero() {
    let mut solver = AlphaBetaLevel6Solver::new(1);
    solver.play_sequence("334323");
    assert_eq!(solver.solve(0), 0);
    assert_eq!(solver.node_count(), 1);
}

#[test]
fn solve_blocks_a_threat() {
    let mut solver = AlphaBetaLevel6Solver::new(1);
    solver.play_sequence("12121");
    assert_eq!(solver.solve(1), 0);
    assert_eq!(solver.solve(2), 0);
}

#[test]
fn solve_sees_unstoppable_threats() {
    // The side to move faces two open ends of a row of three on the bottom
    // row and cannot block both.
    let mut solver = AlphaBetaLevel6Solver::new(1);
    solver.play_sequence("33442");
    assert_eq!(solver.solve(1), 0);
    assert_eq!(solver.solve(3), -18);
}

#[test]
fn solve_is_repeatable() {
    let mut solver = AlphaBetaLevel6Solver::new(1);
    solver.play_sequence("4433");
    let first = solver.solve(6);
    let first_nodes = solver.node_count();
    let second = solver.solve(6);
    assert_eq!(first, second);
    assert_eq!(first_nodes, solver.node_count());

    let mut other = AlphaBetaLevel6Solver::new(2);
    other.play_sequence("4433");
    assert_eq!(other.solve(6), first);
    assert_eq!(other.node_count(), first_nodes);
}

#[test]
fn play_sequence_resets_the_board() {
    let mut solver = AlphaBetaLevel6Solver::new(1);
    solver.play_sequence("334323");
    assert_eq!(solver.solve(25), 18);
    solver.play_sequence("");
    assert_eq!(solver.solve(1), 0);
}

#[test]
fn new_solver_has_no_nodes() {
    let solver = AlphaBetaLevel6Solver::new(1);
    assert_eq!(solver.node_count(), 0);
}

#[test]
fn play_sequence_keeps_node_count() {
    let mut solver = AlphaBetaLevel6Solver::new(1);
    solver.play_sequence("4433");
    solver.solve(3);
    let nodes = solver.node_count();
    assert!(nodes > 1);
    solver.play_sequence("12");
    assert_eq!(solver.node_count(), nodes);
}

#[test]
fn negamax_without_depth_counts_one_node() {
    let mut solver = AlphaBetaLevel6Solver::new(1);
    solver.play_sequence("4433");
    solver.solve(2);
    let nodes = solver.node_count();
    assert_eq!(solver.negamax(-5, 7, 0), 0);
    assert_eq!(solver.node_count(), nodes + 1);
}
