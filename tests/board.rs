use game_of_life::board::{count_neighbors, Board};

fn empty() -> Vec<bool> {
    vec![false; 1024]
}

fn with_live(cells: &[(usize, usize)]) -> Vec<bool> {
    let mut g = empty();
    for &(x, y) in cells {
        g[y * 32 + x] = true;
    }
    g
}

fn live_cells(board: &Board) -> Vec<(usize, usize)> {
    let mut out = Vec::new();
    for y in 0..32 {
        for x in 0..32 {
            if board.state(x, y) {
                out.push((x, y));
            }
        }
    }
    out
}

#[test]
fn origin_counts_toward_wrapped_neighbors() {
    let g = with_live(&[(0, 0)]);
    let around = [
        (31, 31),
        (31, 0),
        (31, 1),
        (0, 31),
        (0, 1),
        (1, 31),
        (1, 0),
        (1, 1),
    ];
    for y in 0..32i32 {
        for x in 0..32i32 {
            let expected = if around.contains(&(y, x)) { 1 } else { 0 };
            assert_eq!(count_neighbors(&g, y, x), expected, "row {} column {}", y, x);
        }
    }
}

#[test]
fn full_neighborhood_counts_eight() {
    let mut g = vec![true; 1024];
    g[5 * 32 + 7] = false;
    assert_eq!(count_neighbors(&g, 5, 7), 8);
    assert_eq!(count_neighbors(&g, 0, 0), 8);
    assert_eq!(count_neighbors(&g, 5, 6), 7);
}

#[test]
fn block_is_still_life() {
    let cells = [(10, 12), (11, 12), (10, 13), (11, 13)];
    let mut board = Board::with_cells(with_live(&cells));
    assert_eq!(board.next(), None);
    assert_eq!(live_cells(&board), vec![(10, 12), (11, 12), (10, 13), (11, 13)]);
}

#[test]
fn block_across_the_corner_is_still_life() {
    let cells = [(31, 31), (0, 31), (31, 0), (0, 0)];
    let mut board = Board::with_cells(with_live(&cells));
    assert_eq!(board.next(), None);
    assert_eq!(live_cells(&board), vec![(0, 0), (31, 0), (0, 31), (31, 31)]);
}

#[test]
fn blinker_has_period_two() {
    let mut board = Board::with_cells(with_live(&[(9, 10), (10, 10), (11, 10)]));
    assert_eq!(board.next(), None);
    assert_eq!(live_cells(&board), vec![(10, 9), (10, 10), (10, 11)]);
    assert_eq!(board.next(), None);
    assert_eq!(live_cells(&board), vec![(9, 10), (10, 10), (11, 10)]);
}

#[test]
fn all_dead_stays_dead() {
    let mut board = Board::with_cells(empty());
    assert_eq!(board.next(), None);
    assert!(live_cells(&board).is_empty());
    assert_eq!(board.generations(), 2);
    assert_eq!(board.seen_count(), 1);
}

#[test]
fn advance_is_determined_by_the_cells() {
    let cells = with_live(&[(3, 4), (4, 4), (5, 4), (5, 3), (4, 2), (20, 20), (21, 20)]);
    let mut a = Board::with_cells(cells.clone());
    let mut b = Board::with_cells(cells);
    for _ in 0..5 {
        assert_eq!(a.next(), None);
        assert_eq!(b.next(), None);
        assert_eq!(live_cells(&a), live_cells(&b));
    }
}

#[test]
fn hash_of_single_cells() {
    assert_eq!(Board::with_cells(empty()).hash(), 0);
    assert_eq!(Board::with_cells(with_live(&[(0, 2)])).hash(), 1u64 << 63);
    assert_eq!(Board::with_cells(with_live(&[(31, 2)])).hash(), 1u64 << 32);
    assert_eq!(Board::with_cells(with_live(&[(0, 3)])).hash(), 1u64 << 31);
    assert_eq!(Board::with_cells(with_live(&[(31, 31)])).hash(), 1);
    assert_eq!(Board::with_cells(with_live(&[(0, 2), (0, 4)])).hash(), 0);
    assert_eq!(
        Board::with_cells(with_live(&[(1, 2), (2, 5)])).hash(),
        (1u64 << 62) | (1u64 << 29)
    );
}

#[test]
fn hash_is_stable() {
    let board = Board::with_cells(with_live(&[(1, 5), (2, 6), (30, 17), (12, 29)]));
    assert_eq!(board.hash(), board.hash());
    let same = Board::with_cells(with_live(&[(1, 5), (2, 6), (30, 17), (12, 29)]));
    assert_eq!(board.hash(), same.hash());
}

#[test]
fn hash_ignores_rows_zero_and_one() {
    let a = Board::with_cells(with_live(&[(4, 8), (9, 20)]));
    let b = Board::with_cells(with_live(&[(4, 8), (9, 20), (0, 0), (17, 1), (31, 1)]));
    assert_eq!(a.hash(), b.hash());
    let c = Board::with_cells(with_live(&[(4, 8), (9, 20), (0, 2)]));
    assert_ne!(a.hash(), c.hash());
}

#[test]
fn repeated_board_starts_over() {
    let mut board = Board::with_cells(with_live(&[(9, 10), (10, 10), (11, 10)]));
    assert_eq!(board.generations(), 1);
    assert_eq!(board.next(), None);
    assert_eq!(board.generations(), 2);
    assert_eq!(board.seen_count(), 1);
    assert_eq!(board.next(), None);
    assert_eq!(board.generations(), 3);
    assert_eq!(board.seen_count(), 2);
    assert_eq!(board.next(), Some(3));
    assert_eq!(board.generations(), 1);
    assert_eq!(board.seen_count(), 0);
}

#[test]
fn still_board_starts_over_on_second_advance() {
    let mut board = Board::with_cells(empty());
    assert_eq!(board.next(), None);
    assert_eq!(board.next(), Some(2));
    assert_eq!(board.generations(), 1);
    assert_eq!(board.seen_count(), 0);
}

#[test]
fn random_board_eventually_starts_over() {
    let mut board = Board::new();
    assert_eq!(board.generations(), 1);
    assert_eq!(board.seen_count(), 0);
    let mut reset = None;
    for _ in 0..200_000 {
        if let Some(n) = board.next() {
            reset = Some(n);
            break;
        }
        assert_eq!(board.seen_count() as u64 + 1, board.generations());
    }
    let n = reset.expect("a random board repeats within the allotted generations");
    assert!(n >= 2);
    assert_eq!(board.generations(), 1);
    assert_eq!(board.seen_count(), 0);
}

#[test]
fn randomize_keeps_counter_and_history() {
    let mut board = Board::with_cells(empty());
    assert_eq!(board.next(), None);
    board.randomize();
    assert_eq!(board.generations(), 2);
    assert_eq!(board.seen_count(), 1);
}
