use knight_paths::enhanced;
use knight_paths::naive;
use knight_paths::tour::SizeError;

const MOVES: [(i64, i64); 8] = [
    (-1, -2),
    (1, -2),
    (-2, -1),
    (2, -1),
    (-2, 1),
    (2, 1),
    (-1, 2),
    (1, 2),
];

/// Plain enumeration without any pruning, on unpadded coordinates.
fn brute_rec(w: i64, h: i64, seen: &mut Vec<bool>, at: (i64, i64), left: usize, count: &mut u64) {
    let last = (1, 2);
    seen[(at.1 * w + at.0) as usize] = true;
    if at == last {
        if left == 1 {
            *count += 1;
        }
    } else {
        for (dx, dy) in MOVES.iter() {
            let (x, y) = (at.0 + dx, at.1 + dy);
            if x >= 0 && x < w && y >= 0 && y < h && !seen[(y * w + x) as usize] {
                brute_rec(w, h, seen, (x, y), left - 1, count);
            }
        }
    }
    seen[(at.1 * w + at.0) as usize] = false;
}

fn brute_force(w: u32, h: u32) -> u64 {
    let (w, h) = (w as i64, h as i64);
    let mut seen = vec![false; (w * h) as usize];
    seen[0] = true;
    let mut count = 0;
    brute_rec(w, h, &mut seen, (2, 1), (w * h - 1) as usize, &mut count);
    count
}

#[test]
fn board_3x3_has_no_path() {
    assert_eq!(naive::count_tours(3, 3), Ok(0));
    assert_eq!(enhanced::count_tours(3, 3), Ok(0));
    assert_eq!(brute_force(3, 3), 0);
}

#[test]
fn small_boards_match_brute_force() {
    for w in 3..=4 {
        for h in 3..=5 {
            let expected = brute_force(w, h);
            assert_eq!(naive::count_tours(w, h), Ok(expected), "naive {}x{}", w, h);
            assert_eq!(enhanced::count_tours(w, h), Ok(expected), "enhanced {}x{}", w, h);
        }
    }
}

#[test]
fn board_5x4_and_4x5_match_brute_force() {
    assert_eq!(naive::count_tours(5, 4), Ok(brute_force(5, 4)));
    assert_eq!(enhanced::count_tours(5, 4), Ok(brute_force(5, 4)));
    assert_eq!(enhanced::count_tours(4, 5), Ok(brute_force(4, 5)));
}

#[test]
fn variants_agree_on_5x5() {
    let a = naive::count_tours(5, 5);
    let b = enhanced::count_tours(5, 5);
    assert!(a.is_ok());
    assert_eq!(a, b);
}

#[test]
fn board_3x4_and_4x3_are_each_counted_on_their_own() {
    // Mirroring along the diagonal keeps the first cell but swaps the second
    // and the last, so the two families of paths differ.
    let a = enhanced::count_tours(3, 4).unwrap();
    let b = enhanced::count_tours(4, 3).unwrap();
    assert_eq!(a, brute_force(3, 4));
    assert_eq!(b, brute_force(4, 3));
    assert_eq!(naive::count_tours(3, 4), Ok(a));
    assert_eq!(naive::count_tours(4, 3), Ok(b));
}

#[test]
fn board_below_3_is_refused() {
    assert_eq!(naive::count_tours(2, 5), Err(SizeError::TooSmall));
    assert_eq!(naive::count_tours(5, 2), Err(SizeError::TooSmall));
    assert_eq!(enhanced::count_tours(0, 0), Err(SizeError::TooSmall));
    assert_eq!(enhanced::count_tours(3, 1), Err(SizeError::TooSmall));
}

#[test]
fn board_of_3_holds_the_fixed_cells() {
    assert!(naive::count_tours(3, 3).is_ok());
    assert!(enhanced::count_tours(3, 5).is_ok());
    assert!(enhanced::count_tours(5, 3).is_ok());
}

#[test]
fn oversized_board_is_refused() {
    assert_eq!(naive::count_tours(u32::MAX, 3), Err(SizeError::TooLarge));
    assert_eq!(enhanced::count_tours(3, u32::MAX - 4), Err(SizeError::TooLarge));
    assert_eq!(enhanced::count_tours(70000, 70000), Err(SizeError::TooLarge));
}

#[test]
fn rec_counts_and_restores_board() {
    let mut board = enhanced::Board::new(4, 5);
    board.put((2, 2));
    let before: Vec<u32> = (0..9).flat_map(|y| (0..8).map(move |x| (x, y))).map(|xy| board.get(xy)).collect();
    let mut ans = 5;
    enhanced::rec(&mut ans, &mut board, (4, 3));
    assert_eq!(ans, 5 + brute_force(4, 5));
    let after: Vec<u32> = (0..9).flat_map(|y| (0..8).map(move |x| (x, y))).map(|xy| board.get(xy)).collect();
    assert_eq!(before, after);
    assert_eq!(board.n_remain(), 19);

    let mut nb = naive::Board::new(4, 5);
    nb.put((2, 2));
    let mut ans = 0;
    naive::rec(&mut ans, &mut nb, (4, 3));
    assert_eq!(ans, brute_force(4, 5));
    assert_eq!(nb.n(), 1);
}

#[test]
fn rec_saturates_counter() {
    let mut board = naive::Board::new(4, 5);
    board.put((2, 2));
    let mut ans = u64::MAX;
    naive::rec(&mut ans, &mut board, (4, 3));
    assert_eq!(ans, u64::MAX);
}
