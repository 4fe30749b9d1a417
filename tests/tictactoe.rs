use chameleon::game::{scalar, ExactUtility, Game, Utility};
use chameleon::mcts::{blend, mean_score, MonteCarloTree};

const CROSS: u32 = 1;
const CIRCLE: u32 = 2;

#[derive(Clone, Copy, Debug, PartialEq, Eq)]
struct TicTacToe {
    board: [u32; 9],
    circle_to_play: bool,
    history: [usize; 9],
    moves: usize,
}

impl TicTacToe {
    fn new() -> Self {
        TicTacToe { board: [0; 9], circle_to_play: false, history: [0; 9], moves: 0 }
    }

    fn from_moves(squares: &[usize]) -> Self {
        let mut t = TicTacToe::new();
        for s in squares {
            t.mark(*s);
        }
        t
    }

    fn mark(&mut self, square: usize) {
        self.history[self.moves] = square;
        self.board[square] = if self.circle_to_play { CIRCLE } else { CROSS };
        self.circle_to_play = !self.circle_to_play;
        self.moves += 1;
    }

    fn unmark(&mut self) {
        self.moves -= 1;
        let square = self.history[self.moves];
        self.history[self.moves] = 0;
        self.board[square] = 0;
        self.circle_to_play = !self.circle_to_play;
    }

    fn mover(&self) -> u32 {
        if self.circle_to_play { CIRCLE } else { CROSS }
    }

    fn winner(&self) -> u32 {
        const LINES: [[usize; 3]; 8] =
            [[0, 1, 2], [3, 4, 5], [6, 7, 8], [0, 3, 6], [1, 4, 7], [2, 5, 8], [0, 4, 8], [2, 4, 6]];
        for l in LINES.iter() {
            let t = self.board[l[0]];
            if t != 0 && self.board[l[1]] == t && self.board[l[2]] == t {
                return t;
            }
        }
        0
    }

    fn free(&self) -> Vec<usize> {
        (0..9).filter(|s| self.board[*s] == 0).collect()
    }

    /// Game-theoretic value for the side to move: 1 win, 0 draw, -1 loss.
    fn solve(&mut self) -> i32 {
        let w = self.winner();
        if w != 0 {
            return if w == self.mover() { 1 } else { -1 };
        }
        let free = self.free();
        if free.is_empty() {
            return 0;
        }
        let mut best = -1;
        for s in free {
            self.mark(s);
            let v = -self.solve();
            self.unmark();
            if v > best {
                best = v;
            }
        }
        best
    }
}

impl Game for TicTacToe {
    type Action = usize;

    fn play(&mut self, action: &usize) {
        self.mark(*action)
    }

    fn undo(&mut self) {
        self.unmark()
    }

    fn current_player(&self) -> u32 {
        self.mover()
    }

    fn actions(&self) -> Vec<usize> {
        if self.winner() != 0 {
            Vec::new()
        } else {
            self.free()
        }
    }

    fn utility(&self) -> Utility {
        match self.winner() {
            0 => {
                if self.free().is_empty() {
                    Utility::Exact(ExactUtility::Draw)
                } else {
                    Utility::Unknown
                }
            }
            w => Utility::Exact(ExactUtility::Win(w)),
        }
    }

    fn hash(&self) -> u64 {
        let mut k: u64 = 0;
        for t in self.board.iter() {
            k = k * 3 + *t as u64;
        }
        k
    }
}

fn key_after(state: &TicTacToe, square: usize) -> u64 {
    let mut s = *state;
    s.mark(square);
    s.hash()
}

#[test]
fn scenario_a_no_losing_first_move() {
    let mut board = TicTacToe::new();
    let mut tree = MonteCarloTree::new();
    for _ in 0..1600 {
        tree.step(&mut board);
    }
    assert_eq!(board, TicTacToe::new());
    let action = tree.best_action(&mut board).unwrap();
    assert!(action < 9);
    let mut after = board;
    after.mark(action);
    // The opponent must have no forced win after the chosen square.
    assert!(after.solve() <= 0);
}

#[test]
fn scenario_a_blocks_immediate_threat() {
    // X: 0, 8; O: 4, 5 threatens 3. X to move must block at 3.
    let mut board = TicTacToe::from_moves(&[0, 4, 8, 5]);
    let start = board;
    let mut tree = MonteCarloTree::new();
    for _ in 0..1600 {
        tree.step(&mut board);
    }
    assert_eq!(board, start);
    let action = tree.best_action(&mut board).unwrap();
    let mut after = board;
    after.mark(action);
    assert!(after.solve() <= 0);
    assert_eq!(action, 3);
}

#[test]
fn scenario_b_one_move_from_win() {
    // X: 0, 1; O: 3, 4; X to move wins at 2, the first free square.
    let mut board = TicTacToe::from_moves(&[0, 3, 1, 4]);
    let mut tree = MonteCarloTree::new();
    tree.step(&mut board);
    assert!(tree.node(key_after(&board, 2)).is_none());
    tree.step(&mut board);
    let child = tree.node(key_after(&board, 2)).unwrap();
    assert_eq!(child.utility, Utility::Exact(ExactUtility::Win(CROSS)));
    assert_eq!(tree.best_action(&mut board), Some(2));
}

#[test]
fn scenario_c_solves_draw() {
    // X: 0, 4, 5; O: 8, 3, 2; X to move with three squares left.
    let mut board = TicTacToe::from_moves(&[0, 8, 4, 3, 5, 2]);
    let expected = board.clone().solve();
    let mut tree = MonteCarloTree::new();
    for _ in 0..2000 {
        tree.step(&mut board);
    }
    let root = tree.node(board.hash()).unwrap();
    let solved = match root.utility {
        Utility::Exact(ExactUtility::Draw) => 0,
        Utility::Exact(ExactUtility::Win(p)) => if p == board.mover() { 1 } else { -1 },
        other => panic!("root not solved: {:?}", other),
    };
    assert_eq!(solved, expected);
}

#[test]
fn scenario_c_solves_win() {
    // X: 0, 4; O: 1, 7; X to move has a forced win.
    let mut board = TicTacToe::from_moves(&[0, 1, 4, 7]);
    assert_eq!(board.clone().solve(), 1);
    let mut tree = MonteCarloTree::new();
    for _ in 0..5000 {
        tree.step(&mut board);
    }
    let root = tree.node(board.hash()).unwrap();
    assert_eq!(root.utility, Utility::Exact(ExactUtility::Win(CROSS)));
}

#[test]
fn solved_root_stays_solved() {
    let mut board = TicTacToe::from_moves(&[0, 1, 4, 7]);
    let mut tree = MonteCarloTree::new();
    for _ in 0..5000 {
        tree.step(&mut board);
    }
    let root = tree.node(board.hash()).unwrap();
    let size = tree.len();
    for _ in 0..50 {
        tree.step(&mut board);
    }
    assert_eq!(tree.node(board.hash()).unwrap().utility, root.utility);
    assert_eq!(tree.len(), size);
}

#[test]
fn step_restores_state_and_adds_one_node() {
    let mut board = TicTacToe::from_moves(&[4]);
    let start = board;
    let mut tree = MonteCarloTree::with_simulations(8);
    for i in 0..20 {
        assert_eq!(tree.len(), i);
        tree.step(&mut board);
        assert_eq!(board, start);
        assert_eq!(board.hash(), start.hash());
    }
    let root = tree.node(board.hash()).unwrap();
    assert_eq!(root.visits, 20);
}

#[test]
fn estimates_stay_in_range() {
    let mut board = TicTacToe::new();
    let mut tree = MonteCarloTree::with_simulations(4);
    for _ in 0..300 {
        tree.step(&mut board);
    }
    for s in 0..9 {
        if let Some(n) = tree.node(key_after(&board, s)) {
            if let Utility::Approximate(v) = n.utility {
                assert!((-32767..=32767).contains(&v));
            }
        }
    }
}

#[test]
fn best_action_none_on_terminal() {
    // X wins on the top row.
    let mut board = TicTacToe::from_moves(&[0, 3, 1, 4, 2]);
    let mut tree = MonteCarloTree::new();
    assert_eq!(tree.best_action(&mut board), None);
    tree.step(&mut board);
    assert_eq!(tree.best_action(&mut board), None);
    let full = TicTacToe::from_moves(&[0, 1, 2, 4, 3, 5, 7, 6, 8]);
    let mut full_board = full;
    assert_eq!(tree.best_action(&mut full_board), None);
}

#[test]
fn best_action_on_empty_tree_takes_first_action() {
    let mut board = TicTacToe::new();
    let tree = MonteCarloTree::new();
    assert_eq!(tree.best_action(&mut board), Some(0));
    assert_eq!(board, TicTacToe::new());
}

#[test]
fn no_playouts_gives_neutral_estimate() {
    let mut board = TicTacToe::new();
    let mut tree = MonteCarloTree::with_simulations(0);
    tree.step(&mut board);
    let root = tree.node(board.hash()).unwrap();
    assert_eq!(root.utility, Utility::Approximate(0));
    assert_eq!(root.visits, 1);
}

#[test]
fn terminal_expansion_keeps_game_result() {
    let mut board = TicTacToe::from_moves(&[0, 3, 1, 4, 2]);
    let mut tree = MonteCarloTree::new();
    tree.step(&mut board);
    let root = tree.node(board.hash()).unwrap();
    assert_eq!(root.utility, Utility::Exact(ExactUtility::Win(CROSS)));
    tree.step(&mut board);
    assert_eq!(tree.len(), 1);
}

#[test]
fn blend_is_rounded_mean() {
    assert_eq!(blend(32767, 32767), 32767);
    assert_eq!(blend(-32767, -32767), -32767);
    assert_eq!(blend(-32767, 32767), 0);
    assert_eq!(blend(0, 1), 1);
    assert_eq!(blend(0, -1), -1);
    assert_eq!(blend(100, 51), 76);
    assert_eq!(blend(-100, -51), -76);
}

#[test]
fn mean_score_is_rounded_mean() {
    assert_eq!(mean_score(3, 2), 2);
    assert_eq!(mean_score(-3, 2), -2);
    assert_eq!(mean_score(32767 * 255, 255), 32767);
    assert_eq!(mean_score(-32767 * 255, 255), -32767);
    assert_eq!(mean_score(10, 4), 3);
    assert_eq!(mean_score(0, 7), 0);
}

#[test]
fn scalar_values() {
    assert_eq!(scalar(Utility::Exact(ExactUtility::Win(CROSS)), CROSS), 32767);
    assert_eq!(scalar(Utility::Exact(ExactUtility::Win(CIRCLE)), CROSS), -32767);
    assert_eq!(scalar(Utility::Exact(ExactUtility::Draw), CROSS), 0);
    assert_eq!(scalar(Utility::Approximate(-32768), CROSS), -32767);
    assert_eq!(scalar(Utility::Approximate(1234), CIRCLE), 1234);
}

#[test]
fn forced_draw_solved_in_three_steps() {
    // Only square 8 is left; playing it draws.
    let mut board = TicTacToe::from_moves(&[0, 1, 2, 4, 3, 5, 7, 6]);
    let start = board;
    let mut tree = MonteCarloTree::new();
    for _ in 0..3 {
        tree.step(&mut board);
    }
    assert_eq!(board, start);
    let root = tree.node(board.hash()).unwrap();
    assert_eq!(root.utility, Utility::Exact(ExactUtility::Draw));
    let size = tree.len();
    tree.step(&mut board);
    assert_eq!(board, start);
    assert_eq!(tree.len(), size);
    assert_eq!(tree.node(board.hash()).unwrap(), root);
}

#[test]
fn forced_playouts_give_exact_mean() {
    // Only square 8 is left and playing it draws: every playout scores 0.
    let mut board = TicTacToe::from_moves(&[0, 1, 2, 4, 3, 5, 7, 6]);
    assert!(board.utility() == Utility::Unknown);
    let mut tree = MonteCarloTree::new();
    tree.step(&mut board);
    let root = tree.node(board.hash()).unwrap();
    assert_eq!(root.utility, Utility::Approximate(0));
    assert_eq!(root.visits, 1);
}

#[test]
fn two_steps_store_winning_child() {
    let mut board = TicTacToe::from_moves(&[0, 3, 1, 4]);
    let start = board;
    let mut tree = MonteCarloTree::new();
    tree.step(&mut board);
    tree.step(&mut board);
    assert_eq!(board, start);
    assert_eq!(tree.len(), 2);
    assert_eq!(tree.node(board.hash()).unwrap().visits, 2);
    let child = tree.node(key_after(&board, 2)).unwrap();
    assert_eq!(child.utility, Utility::Exact(ExactUtility::Win(CROSS)));
    assert_eq!(child.visits, 1);
}
