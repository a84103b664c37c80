use game_of_life::game::Board;
use game_of_life::game::Game;

fn board(seed: &str) -> Board {
    Board::from_seed(seed.to_string(), '#', '.', '\n').unwrap()
}

fn game(seed: &str) -> Game {
    Game::from(board(seed))
}

#[test]
fn blinker_oscillates() {
    let mut g = Game::from(Board {
        grid: vec![
            vec![false, true, false],
            vec![false, true, false],
            vec![false, true, false],
        ],
    });
    g.next();
    assert_eq!(
        g.board.grid,
        vec![vec![false, false, false], vec![true, true, true], vec![false, false, false]]
    );
    assert_eq!(g.delta, 4);
    assert_eq!(g.generation, 1);
    assert!(!g.is_terminal());
    g.next();
    assert_eq!(
        g.board.grid,
        vec![vec![false, true, false], vec![false, true, false], vec![false, true, false]]
    );
    assert_eq!(g.delta, 4);
    assert_eq!(g.generation, 2);
    assert!(!g.is_terminal());
}

#[test]
fn block_is_at_rest() {
    let mut g = game("....\n.##.\n.##.\n....");
    g.next();
    assert_eq!(g.board.to_text(), "....\n.##.\n.##.\n....");
    assert_eq!(g.delta, 0);
    assert_eq!(g.generation, 1);
    assert!(g.is_terminal());
}

#[test]
fn block_at_the_edge_is_at_rest() {
    let mut g = game("##\n##");
    assert_eq!(g.board.next(), 0);
    assert_eq!(g.board.to_text(), "##\n##");
    let mut g = game("...\n.##\n.##");
    g.next();
    assert_eq!(g.board.to_text(), "...\n.##\n.##");
    assert!(g.is_terminal());
}

#[test]
fn lonely_corner_cell_dies_on_any_board() {
    for seed in ["#", "#.", "#\n.", "#..\n...\n...", "#......\n.......\n.......\n.......\n......."] {
        let mut g = game(seed);
        assert_eq!(g.board.neighbors(0, 0), 0);
        g.next();
        assert!(!g.board.grid[0][0]);
        assert_eq!(g.delta, 1);
        assert!(g.board.grid.iter().all(|row| row.iter().all(|cell| !cell)));
    }
}

#[test]
fn corner_counts_three_neighbors_at_most() {
    let b = board("###\n###\n###");
    assert_eq!(b.neighbors(0, 0), 3);
    assert_eq!(b.neighbors(0, 2), 3);
    assert_eq!(b.neighbors(2, 0), 3);
    assert_eq!(b.neighbors(2, 2), 3);
    assert_eq!(b.neighbors(0, 1), 5);
    assert_eq!(b.neighbors(1, 0), 5);
    assert_eq!(b.neighbors(1, 1), 8);
    assert_eq!(board("#").neighbors(0, 0), 0);
}

#[test]
fn neighbors_outside_the_board_see_its_edge() {
    let b = board("##\n##");
    assert_eq!(b.neighbors(2, 2), 1);
    assert_eq!(b.neighbors(0, 2), 2);
    assert_eq!(b.neighbors(5, 5), 0);
    assert_eq!(b.neighbors(usize::MAX, usize::MAX), 0);
}

#[test]
fn safe_get_is_dead_outside_the_board() {
    let b = board("#.\n.#");
    assert!(b.safe_get(0, 0));
    assert!(!b.safe_get(0, 1));
    assert!(b.safe_get(1, 1));
    assert!(!b.safe_get(2, 0));
    assert!(!b.safe_get(0, 2));
    assert!(!b.safe_get(usize::MAX, 0));
}

#[test]
fn fresh_game_is_not_terminal() {
    assert!(!game("...\n...").is_terminal());
    assert!(!game("").is_terminal());
    assert!(!game("##\n##").is_terminal());
    let g = game("...");
    assert_eq!(g.generation, 0);
    assert_eq!(g.delta, 0);
}

#[test]
fn dead_board_is_terminal_after_one_transition() {
    let mut g = game("...\n...");
    g.next();
    assert_eq!(g.delta, 0);
    assert!(g.is_terminal());
}

#[test]
fn terminal_needs_both_a_transition_and_no_change() {
    let b = || Board { grid: vec![vec![false]] };
    assert!(!Game { board: b(), generation: 0, delta: 0 }.is_terminal());
    assert!(!Game { board: b(), generation: 0, delta: 2 }.is_terminal());
    assert!(!Game { board: b(), generation: 3, delta: 2 }.is_terminal());
    assert!(Game { board: b(), generation: 3, delta: 0 }.is_terminal());
}

#[test]
fn dead_cell_with_three_neighbors_comes_alive() {
    let b = board("##.\n#..\n...");
    assert_eq!(b.neighbors(1, 1), 3);
    assert_eq!(b.interact(1, 1), (true, true));
}

#[test]
fn alive_cell_with_fewer_than_two_neighbors_dies() {
    assert_eq!(board("...\n.#.\n...").interact(1, 1), (false, true));
    assert_eq!(board("#..\n.#.\n...").interact(1, 1), (false, true));
}

#[test]
fn alive_cell_with_two_or_three_neighbors_lives_on() {
    assert_eq!(board("#..\n.#.\n..#").interact(1, 1), (true, false));
    assert_eq!(board("#.#\n.#.\n..#").interact(1, 1), (true, false));
}

#[test]
fn alive_cell_with_more_than_three_neighbors_dies() {
    assert_eq!(board("#.#\n.#.\n#.#").interact(1, 1), (false, true));
    assert_eq!(board("###\n###\n###").interact(1, 1), (false, true));
}

#[test]
fn dead_cell_without_three_neighbors_stays_dead() {
    assert_eq!(board("...\n...\n...").interact(1, 1), (false, false));
    assert_eq!(board("#..\n...\n..#").interact(1, 1), (false, false));
    assert_eq!(board("#.#\n...\n#.#").interact(1, 1), (false, false));
    assert_eq!(board("###\n#.#\n###").interact(1, 1), (false, false));
}

#[test]
fn transition_reads_the_grid_before_it() {
    // Updated cell by cell in place, the middle row would see the dead top row.
    let mut b = board("###\n...\n...");
    assert_eq!(b.next(), 3);
    assert_eq!(b.to_text(), ".#.\n.#.\n...");
}

#[test]
fn glider_moves_along_the_diagonal() {
    let mut g = game(".#...\n..#..\n###..\n.....\n.....");
    for _ in 0..4 {
        g.next();
    }
    assert_eq!(g.board.to_text(), ".....\n..#..\n...#.\n.###.\n.....");
    assert_eq!(g.generation, 4);
    assert_eq!(g.delta, 4);
}

#[test]
fn delta_is_of_the_last_transition_alone() {
    let mut g = game("##.\n#..\n...");
    g.next();
    assert_eq!(g.board.to_text(), "##.\n##.\n...");
    assert_eq!(g.delta, 1);
    g.next();
    assert_eq!(g.delta, 0);
    assert_eq!(g.generation, 2);
    assert!(g.is_terminal());
}

#[test]
fn boards_without_cells_do_not_change() {
    let mut b = Board { grid: vec![] };
    assert_eq!(b.next(), 0);
    assert_eq!(b.grid, Vec::<Vec<bool>>::new());
    let mut b = Board { grid: vec![vec![], vec![]] };
    assert_eq!(b.next(), 0);
    assert_eq!(b.grid, vec![Vec::<bool>::new(), Vec::<bool>::new()]);
    let mut g = game("");
    g.next();
    assert_eq!(g.delta, 0);
    assert!(g.is_terminal());
}

#[test]
fn transition_keeps_the_shape_of_the_board() {
    let mut b = board("#.#.\n.#.#\n####");
    b.next();
    assert_eq!(b.rows(), 3);
    assert_eq!(b.cols(), 4);
    assert!(b.is_rectangular());
    let mut jagged = Board { grid: vec![vec![true, true, true], vec![true], vec![]] };
    assert_eq!(jagged.next(), 1);
    assert_eq!(jagged.grid, vec![vec![true, true, false], vec![true], vec![]]);
}

#[test]
fn try_next_advances_where_it_can() {
    let mut g = game(".#.\n.#.\n.#.");
    assert!(g.can_advance());
    assert!(g.try_next());
    assert_eq!(g.board.to_text(), "...\n###\n...");
    assert_eq!(g.generation, 1);
    assert_eq!(g.delta, 4);
}

#[test]
fn try_next_leaves_a_game_at_the_last_generation() {
    let mut g = Game { board: board(".#.\n.#.\n.#."), generation: usize::MAX, delta: 7 };
    assert!(!g.can_advance());
    assert!(!g.try_next());
    assert_eq!(g.board.to_text(), ".#.\n.#.\n.#.");
    assert_eq!(g.generation, usize::MAX);
    assert_eq!(g.delta, 7);
}

#[test]
fn describe_shows_counters_and_board() {
    let g = Game { board: board("#.\n.#"), generation: 12, delta: 3 };
    assert_eq!(g.describe(), "[n: 12, Δ: 3] \n#.\n.#");
}

#[test]
fn game_from_board_starts_at_generation_zero() {
    let g = Game::from(Board { grid: vec![vec![true, false]] });
    assert_eq!(g.board.grid, vec![vec![true, false]]);
    assert_eq!(g.generation, 0);
    assert_eq!(g.delta, 0);
    assert!(!g.is_terminal());
}

const AROUND: [(isize, isize); 8] =
    [(-1, -1), (-1, 0), (-1, 1), (0, 1), (1, 1), (1, 0), (1, -1), (0, -1)];

fn look(grid: &[Vec<bool>], row: isize, col: isize) -> bool {
    if row < 0 || col < 0 {
        return false;
    }
    match grid.get(row as usize) {
        Some(cells) => cells.get(col as usize).copied().unwrap_or(false),
        None => false,
    }
}

fn step_by_offsets(grid: &[Vec<bool>]) -> (Vec<Vec<bool>>, usize) {
    let mut next = grid.to_vec();
    let mut delta = 0;
    for row in 0..grid.len() {
        for col in 0..grid[row].len() {
            let n = AROUND
                .iter()
                .filter(|(r, c)| look(grid, row as isize + r, col as isize + c))
                .count();
            let alive = grid[row][col];
            let state = matches!((n, alive), (3, false) | (2..=3, true));
            if state != alive {
                delta += 1;
            }
            next[row][col] = state;
        }
    }
    (next, delta)
}

#[test]
fn transition_agrees_with_a_count_over_offsets() {
    let mut state: u64 = 0x2545_f491_4f6c_dd1d;
    let mut draw = move |bound: u64| {
        state = state.wrapping_mul(6364136223846793005).wrapping_add(1442695040888963407);
        (state >> 33) % bound
    };
    for _ in 0..200 {
        let rows = draw(7) as usize;
        let cols = draw(7) as usize;
        let density = 1 + draw(4);
        let grid: Vec<Vec<bool>> =
            (0..rows).map(|_| (0..cols).map(|_| draw(5) < density).collect()).collect();
        let mut game = Game::from(Board { grid: grid.clone() });
        let mut expected = grid;
        for generation in 1..=5 {
            let (next, delta) = step_by_offsets(&expected);
            game.next();
            assert_eq!(game.board.grid, next);
            assert_eq!(game.delta, delta);
            assert_eq!(game.generation, generation);
            assert_eq!(game.is_terminal(), delta == 0);
            expected = next;
        }
    }
}
