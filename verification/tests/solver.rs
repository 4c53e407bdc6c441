use sudoku_dlx::dlx::Dlx;
use sudoku_dlx::engine::Engine;
use sudoku_dlx::grid::Grid;

/// Builds a grid from nine rows of digits, `.` meaning blank.
fn grid_of(rows: [&str; 9]) -> Grid {
    let mut cells: Vec<u8> = Vec::new();
    for row in rows.iter() {
        for ch in row.chars() {
            if ch == '.' {
                cells.push(0);
            } else {
                cells.push(ch.to_digit(10).unwrap() as u8);
            }
        }
    }
    Grid::from_cells(cells).unwrap()
}

fn wikipedia_puzzle() -> Grid {
    grid_of([
        "53..7....",
        "6..195...",
        ".98....6.",
        "8...6...3",
        "4..8.3..1",
        "7...2...6",
        ".6....28.",
        "...419..5",
        "....8..79",
    ])
}

fn wikipedia_solution() -> Grid {
    grid_of([
        "534678912",
        "672195348",
        "198342567",
        "859761423",
        "426853791",
        "713924856",
        "961537284",
        "287419635",
        "345286179",
    ])
}

fn snapshot(d: &Dlx) -> (Vec<(usize, usize, usize, usize, usize)>, Vec<usize>) {
    let mut nodes = Vec::new();
    for n in 0..3241 {
        let nd = d.node(n);
        nodes.push((nd.left, nd.right, nd.up, nd.down, nd.head));
    }
    let mut sizes = Vec::new();
    for h in 0..325 {
        sizes.push(d.size_of(h));
    }
    (nodes, sizes)
}

#[test]
fn cover_uncover_is_the_identity() {
    let mut d = Dlx::new();
    let before = snapshot(&d);
    d.cover(5);
    d.uncover(5);
    assert_eq!(snapshot(&d), before);
}

#[test]
fn cover_uncover_round_trips_from_a_deeper_state() {
    let mut d = Dlx::new();
    d.cover(17);
    d.cover(200);
    let before = snapshot(&d);
    d.cover(300);
    d.uncover(300);
    assert_eq!(snapshot(&d), before);
    d.uncover(200);
    d.uncover(17);
    assert_eq!(snapshot(&d), snapshot(&Dlx::new()));
}

#[test]
fn cover_removes_the_column_and_its_rows() {
    let mut d = Dlx::new();
    for h in 0..325 {
        if h > 0 {
            assert_eq!(d.size_of(h), 9);
        }
    }
    d.cover(1);
    // the nine candidates of cell (1,1) are gone from every other column
    // they touch: each row-digit column of row 1 lost one candidate
    for z in 0..9 {
        assert_eq!(d.size_of(82 + z), 8);
    }
    assert_ne!(d.node(0).right, 1);
}

#[test]
fn unique_puzzle_yields_one_grid_then_finishes() {
    let puzzle = wikipedia_puzzle();
    let mut e = Engine::build(&puzzle).unwrap();
    let first = e.next_solution();
    assert_eq!(first, Some(wikipedia_solution()));
    assert_eq!(e.next_solution(), None);
    assert!(e.finished());
    assert_eq!(e.next_solution(), None);
}

#[test]
fn empty_puzzle_solves_deterministically() {
    let blank = grid_of([
        ".........",
        ".........",
        ".........",
        ".........",
        ".........",
        ".........",
        ".........",
        ".........",
        ".........",
    ]);
    let mut e1 = Engine::build(&blank).unwrap();
    let s1 = e1.next_solution().unwrap();
    let blank2 = grid_of([
        ".........",
        ".........",
        ".........",
        ".........",
        ".........",
        ".........",
        ".........",
        ".........",
        ".........",
    ]);
    let mut e2 = Engine::build(&blank2).unwrap();
    let s2 = e2.next_solution().unwrap();
    assert_eq!(s1, s2);
    // what came out really completes an empty board
    for i in 0..81 {
        let v = s1.cell(i);
        assert!(1 <= v && v <= 9);
    }
}

#[test]
fn colliding_givens_are_reported_at_construction() {
    // two 5s in the first row share the row-digit constraint column
    let bad = grid_of([
        "55.......",
        ".........",
        ".........",
        ".........",
        ".........",
        ".........",
        ".........",
        ".........",
        ".........",
    ]);
    assert!(Engine::build(&bad).is_err());
    // two 7s in one column
    let bad2 = grid_of([
        "7........",
        ".........",
        "7........",
        ".........",
        ".........",
        ".........",
        ".........",
        ".........",
        ".........",
    ]);
    assert!(Engine::build(&bad2).is_err());
    // two 3s in one box
    let bad3 = grid_of([
        "3........",
        ".3.......",
        ".........",
        ".........",
        ".........",
        ".........",
        ".........",
        ".........",
        ".........",
    ]);
    assert!(Engine::build(&bad3).is_err());
    // the same digits far apart are fine
    let ok = grid_of([
        "3........",
        "....3....",
        ".........",
        ".........",
        ".........",
        ".........",
        ".........",
        ".........",
        ".........",
    ]);
    assert!(Engine::build(&ok).is_ok());
}

#[test]
fn givens_decode_back_to_the_input() {
    let puzzle = wikipedia_puzzle();
    let e = Engine::build(&puzzle).unwrap();
    assert_eq!(e.current_grid(), puzzle);
}

#[test]
fn two_completion_puzzle_yields_exactly_two_grids() {
    // the full solution with an unavoidable rectangle blanked: cells
    // (3,5), (3,8), (4,5), (4,8) swap the digits 1 and 3
    let puzzle = grid_of([
        "534678912",
        "672195348",
        "198342567",
        "85976.42.",
        "42685.79.",
        "713924856",
        "961537284",
        "287419635",
        "345286179",
    ]);
    let mut e = Engine::build(&puzzle).unwrap();
    let mut found: Vec<Grid> = Vec::new();
    while let Some(sol) = e.next_solution() {
        found.push(sol);
    }
    assert_eq!(found.len(), 2);
    assert!(found[0] != found[1]);
    let other = grid_of([
        "534678912",
        "672195348",
        "198342567",
        "859763421",
        "426851793",
        "713924856",
        "961537284",
        "287419635",
        "345286179",
    ]);
    assert!(found.contains(&wikipedia_solution()) || found.contains(&other));
    for sol in found.iter() {
        assert!(*sol == wikipedia_solution() || *sol == other);
    }
}

#[test]
fn canonical_thirty_given_puzzle_completes_as_documented() {
    let puzzle = wikipedia_puzzle();
    // exactly 30 givens
    let mut count = 0;
    for i in 0..81 {
        if puzzle.cell(i) != 0 {
            count += 1;
        }
    }
    assert_eq!(count, 30);
    let mut e = Engine::build(&puzzle).unwrap();
    let sol = e.next_solution().unwrap();
    let expected = wikipedia_solution();
    for i in 0..81 {
        assert_eq!(sol.cell(i), expected.cell(i));
    }
    // the solution keeps every given
    for i in 0..81 {
        if puzzle.cell(i) != 0 {
            assert_eq!(sol.cell(i), puzzle.cell(i));
        }
    }
}

#[test]
fn grid_construction_validates_its_input() {
    assert!(Grid::from_cells(vec![0u8; 80]).is_none());
    assert!(Grid::from_cells(vec![0u8; 82]).is_none());
    let mut cells = vec![0u8; 81];
    cells[40] = 10;
    assert!(Grid::from_cells(cells).is_none());
    let mut ok = vec![0u8; 81];
    ok[0] = 9;
    let g = Grid::from_cells(ok).unwrap();
    assert_eq!(g.get(0, 0), 9);
    assert_eq!(g.cell(1), 0);
}

#[test]
fn unsolvable_but_conflict_free_puzzle_finishes_with_no_grid() {
    // cell (0,8) must be 9 by its row, but column 9 already has a 9:
    // no candidate is left, yet no two givens collide
    let puzzle = grid_of([
        "12345678.",
        ".........",
        ".........",
        ".........",
        "........9",
        ".........",
        ".........",
        ".........",
        ".........",
    ]);
    let mut e = Engine::build(&puzzle).unwrap();
    assert_eq!(e.next_solution(), None);
    assert!(e.finished());
}
