use game_of_life::{Universe, UniverseError};

/// Kills every cell of the seed, leaving a board with no live cell.
fn cleared(size: u32) -> Universe {
    let mut u = Universe::new(size).unwrap();
    for i in 0..size * size {
        if i % 3 == 0 || i % 7 == 0 {
            u.toggle_cell(i / size, i % size).unwrap();
        }
    }
    u
}

fn with_live(size: u32, live: &[(u32, u32)]) -> Universe {
    let mut u = cleared(size);
    for &(row, col) in live {
        u.toggle_cell(row, col).unwrap();
    }
    u
}

#[test]
fn test_zero_live_neigbors_count() {
    let mut universe = Universe::new(3).unwrap();

    universe.toggle_cell(1, 1).unwrap();

    // On a 3x3 torus the other eight cells all neighbour the centre; of those
    // the seed leaves 0, 3, 6 and 7 alive.
    assert_eq!(universe.get_live_neighbors_count(1, 1), Ok(4));
}

#[test]
fn test_eight_live_neigbors_count() {
    let mut universe = Universe::new(3).unwrap();

    for x in 0..3 {
        for y in 0..3 {
            universe.toggle_cell(x, y).unwrap();
        }
    }

    // Flipping every cell of the seed leaves 1, 2, 4, 5 and 8 alive. Each
    // cell neighbours all eight others, so a dead cell sees five live
    // neighbours and a live one four, at the walls as in the middle.
    for x in 0..3u32 {
        for y in 0..3u32 {
            let i = x + 3 * y;
            let expected = if i % 3 == 0 || i % 7 == 0 { 5 } else { 4 };
            assert_eq!(universe.get_live_neighbors_count(x, y), Ok(expected));
        }
    }
}

#[test]
fn new_reports_every_cell_row_by_row() {
    let u = Universe::new(3).unwrap();
    assert_eq!(u.size(), 3);
    assert_eq!(
        u.cells(),
        vec![0, 0, 0, 1, 0, 2, 1, 0, 1, 1, 1, 2, 2, 0, 2, 1, 2, 2]
    );
}

#[test]
fn new_refuses_zero_side() {
    assert!(matches!(Universe::new(0), Err(UniverseError::InvalidSize)));
}

#[test]
fn seed_is_alive_on_multiples_of_three_and_seven() {
    // Every neighbour of the centre is one of the other cells, so the count
    // at the centre of the seed is its number of live cells: 0, 3, 6, 7.
    let u = Universe::new(3).unwrap();
    assert_eq!(u.get_live_neighbors_count(1, 1), Ok(4));
    // Cell 0 is alive and sees 3, 6, 7.
    assert_eq!(u.get_live_neighbors_count(0, 0), Ok(3));
}

#[test]
fn toggle_to_alive_reports_that_cell_alone() {
    let mut u = Universe::new(3).unwrap();
    assert_eq!(u.toggle_cell(1, 1), Ok(()));
    assert_eq!(u.cells(), vec![1, 1]);
}

#[test]
fn toggle_to_dead_keeps_the_report() {
    let mut u = Universe::new(3).unwrap();
    let before = u.cells();
    assert_eq!(u.toggle_cell(0, 0), Ok(()));
    assert_eq!(u.cells(), before);
    // The cell did die: cell 3 now sees only 6 and 7.
    assert_eq!(u.get_live_neighbors_count(0, 1), Ok(2));
}

#[test]
fn toggle_off_the_board_is_refused() {
    let mut u = Universe::new(3).unwrap();
    let before = u.cells();
    assert_eq!(u.toggle_cell(3, 0), Err(UniverseError::OutOfBounds));
    assert_eq!(u.toggle_cell(0, 3), Err(UniverseError::OutOfBounds));
    assert_eq!(u.cells(), before);
    assert_eq!(u.get_live_neighbors_count(1, 1), Ok(4));
}

#[test]
fn neighbour_count_off_the_board_is_refused() {
    let u = Universe::new(4).unwrap();
    assert_eq!(u.get_live_neighbors_count(4, 0), Err(UniverseError::OutOfBounds));
    assert_eq!(u.get_live_neighbors_count(0, 4), Err(UniverseError::OutOfBounds));
}

#[test]
fn seed_board_of_three_is_still() {
    // Four live cells on a 3x3 torus: live cells see three, dead ones four.
    let mut u = Universe::new(3).unwrap();
    u.tick();
    // Live cells, scanned column by column: (0,0), (1,0), (2,0), (2,1).
    assert_eq!(u.cells(), vec![0, 0, 1, 0, 2, 0, 2, 1]);
    u.tick();
    assert_eq!(u.cells(), vec![0, 0, 1, 0, 2, 0, 2, 1]);
}

#[test]
fn wraparound_at_corners_and_edges() {
    // A single live cell in the bottom-left corner of a 4x4 board.
    let u = with_live(4, &[(3, 0)]);
    // North of row 0 is row 3, west of column 0 is column 3.
    assert_eq!(u.get_live_neighbors_count(0, 0), Ok(1));
    assert_eq!(u.get_live_neighbors_count(3, 0), Ok(1));
    assert_eq!(u.get_live_neighbors_count(3, 3), Ok(1));
    assert_eq!(u.get_live_neighbors_count(1, 0), Ok(1));
    assert_eq!(u.get_live_neighbors_count(3, 2), Ok(1));
    // Not a neighbour of itself, nor of cells two steps away.
    assert_eq!(u.get_live_neighbors_count(0, 3), Ok(0));
    assert_eq!(u.get_live_neighbors_count(2, 1), Ok(0));
    assert_eq!(u.get_live_neighbors_count(0, 1), Ok(0));
}

#[test]
fn dead_board_stays_dead() {
    let mut u = cleared(5);
    for _ in 0..4 {
        u.tick();
        assert_eq!(u.cells(), Vec::<u32>::new());
    }
    assert_eq!(u.get_live_neighbors_count(2, 2), Ok(0));
}

#[test]
fn lonely_cell_dies() {
    let mut u = with_live(5, &[(2, 2)]);
    assert_eq!(u.get_live_neighbors_count(2, 2), Ok(0));
    u.tick();
    assert_eq!(u.cells(), Vec::<u32>::new());
    assert_eq!(u.get_live_neighbors_count(2, 2), Ok(0));
}

#[test]
fn blinker_births_and_deaths() {
    // A horizontal bar of three turns vertical: the middle survives with
    // two neighbours, the ends die with one, and the cells above and below
    // the middle are born with three.
    let mut u = with_live(5, &[(2, 1), (2, 2), (2, 3)]);
    u.tick();
    assert_eq!(u.cells(), vec![1, 2, 2, 2, 3, 2]);
    u.tick();
    assert_eq!(u.cells(), vec![2, 1, 2, 2, 2, 3]);
}

#[test]
fn dead_cell_with_two_or_four_stays_dead() {
    // (1,1) sees two live cells; (4,4) sees four.
    let mut u = with_live(6, &[(0, 0), (0, 1), (3, 3), (3, 5), (5, 3), (5, 5)]);
    assert_eq!(u.get_live_neighbors_count(1, 1), Ok(2));
    assert_eq!(u.get_live_neighbors_count(4, 4), Ok(4));
    u.tick();
    let report = u.cells();
    let pairs: Vec<(u32, u32)> = report.chunks(2).map(|p| (p[0], p[1])).collect();
    assert!(!pairs.contains(&(1, 1)));
    assert!(!pairs.contains(&(4, 4)));
}

#[test]
fn block_survives() {
    let mut u = with_live(5, &[(1, 1), (1, 2), (2, 1), (2, 2)]);
    u.tick();
    assert_eq!(u.cells(), vec![1, 1, 2, 1, 1, 2, 2, 2]);
}

#[test]
fn crowded_live_cell_dies() {
    // A plus sign: the centre sees four live neighbours and dies.
    let mut u = with_live(5, &[(1, 2), (2, 1), (2, 2), (2, 3), (3, 2)]);
    assert_eq!(u.get_live_neighbors_count(2, 2), Ok(4));
    u.tick();
    let pairs: Vec<(u32, u32)> = u.cells().chunks(2).map(|p| (p[0], p[1])).collect();
    assert!(!pairs.contains(&(2, 2)));
    assert!(pairs.contains(&(2, 1)));
}

#[test]
fn full_three_by_three_board() {
    // Toggle only the cells the seed left dead.
    let mut u = Universe::new(3).unwrap();
    for i in 0..9u32 {
        if !(i % 3 == 0 || i % 7 == 0) {
            u.toggle_cell(i / 3, i % 3).unwrap();
        }
    }
    for x in 0..3 {
        for y in 0..3 {
            assert_eq!(u.get_live_neighbors_count(x, y), Ok(8));
        }
    }
    u.tick();
    assert_eq!(u.cells(), Vec::<u32>::new());
    assert_eq!(u.get_live_neighbors_count(0, 0), Ok(0));
}

#[test]
fn same_side_same_history() {
    let mut a = Universe::new(7).unwrap();
    let mut b = Universe::new(7).unwrap();
    assert_eq!(a.cells(), b.cells());
    for step in 0..6u32 {
        a.tick();
        b.tick();
        a.toggle_cell(step, 6 - step).unwrap();
        b.toggle_cell(step, 6 - step).unwrap();
        assert_eq!(a.cells(), b.cells());
        for x in 0..7 {
            for y in 0..7 {
                assert_eq!(a.get_live_neighbors_count(x, y), b.get_live_neighbors_count(x, y));
            }
        }
    }
}

#[test]
fn report_after_tick_lists_live_cells_once() {
    let mut u = Universe::new(6).unwrap();
    u.tick();
    let pairs: Vec<(u32, u32)> = u.cells().chunks(2).map(|p| (p[0], p[1])).collect();
    for (i, p) in pairs.iter().enumerate() {
        assert!(p.0 < 6 && p.1 < 6);
        assert!(!pairs[i + 1..].contains(p));
    }
}
