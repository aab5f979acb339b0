use knight_paths::enhanced;
use knight_paths::knight::neighbors;
use knight_paths::naive;

fn snapshot(b: &enhanced::Board) -> (Vec<u32>, Vec<u32>, u32) {
    let w = b.w_inner() + 4;
    let h = b.h_inner() + 4;
    let mut cells = Vec::new();
    let mut degs = Vec::new();
    for y in 0..h {
        for x in 0..w {
            cells.push(b.get((x, y)));
            degs.push(b.get_deg((x, y)));
        }
    }
    (cells, degs, b.n_remain())
}

fn recount(b: &enhanced::Board, xy: (u32, u32)) -> u32 {
    neighbors(xy).iter().filter(|&&t| b.is_empty(t)).count() as u32
}

fn check_degrees(b: &enhanced::Board) {
    for y in 2..b.h_inner() + 2 {
        for x in 2..b.w_inner() + 2 {
            assert_eq!(b.get_deg((x, y)), recount(b, (x, y)), "cell {:?}", (x, y));
        }
    }
}

#[test]
fn neighbors_in_fixed_order() {
    assert_eq!(
        neighbors((5, 6)),
        [(4, 4), (6, 4), (3, 5), (7, 5), (3, 7), (7, 7), (4, 8), (6, 8)]
    );
    assert_eq!(neighbors((2, 2))[0], (1, 0));
}

#[test]
fn new_board_layout() {
    let b = enhanced::Board::new(3, 4);
    assert_eq!(b.w_inner(), 3);
    assert_eq!(b.h_inner(), 4);
    assert_eq!(b.n_remain(), 12);
    assert!(!b.is_completed());
    assert_eq!(b.get((0, 0)), u32::MAX);
    assert_eq!(b.get((1, 3)), u32::MAX);
    assert_eq!(b.get((5, 3)), u32::MAX);
    assert_eq!(b.get((3, 6)), u32::MAX);
    assert_eq!(b.get((2, 2)), 0);
    assert_eq!(b.get((4, 5)), 0);
    assert!(b.is_empty((3, 3)));
    assert!(!b.is_empty((1, 1)));
    assert_eq!(b.get_deg((0, 0)), 0);
    // (2,2) reaches (3,4) and (4,3); (3,3) reaches (2,5) and (4,5).
    assert_eq!(b.get_deg((2, 2)), 2);
    assert_eq!(b.get_deg((3, 3)), 2);
    check_degrees(&b);
}

#[test]
fn xy2idx_is_row_major() {
    let b = naive::Board::new(3, 3);
    assert_eq!(b.xy2idx((0, 0)), 0);
    assert_eq!(b.xy2idx((3, 2)), 17);
    let e = enhanced::Board::new(4, 3);
    assert_eq!(e.xy2idx((6, 6)), 6 * 8 + 6);
}

#[test]
fn put_assigns_visit_order() {
    let mut b = naive::Board::new(3, 3);
    b.put((2, 2));
    b.put((4, 3));
    assert_eq!(b.get((2, 2)), 1);
    assert_eq!(b.get((4, 3)), 2);
    assert_eq!(b.n(), 2);
    b.remove((4, 3));
    assert_eq!(b.get((4, 3)), 0);
    assert_eq!(b.n(), 1);
}

#[test]
fn put_then_remove_restores_board() {
    let mut b = enhanced::Board::new(4, 4);
    b.put((2, 2));
    b.put((3, 4));
    let before = snapshot(&b);
    for xy in [(4, 3), (5, 5), (2, 5), (4, 2)] {
        b.put(xy);
        assert_ne!(snapshot(&b), before);
        b.remove(xy);
        assert_eq!(snapshot(&b), before);
    }
}

#[test]
fn lifo_sequence_returns_to_empty() {
    let mut b = enhanced::Board::new(4, 5);
    let initial = snapshot(&b);
    let path = [(2, 2), (4, 3), (5, 5), (3, 6), (2, 4), (4, 5)];
    for (i, &xy) in path.iter().enumerate() {
        b.put(xy);
        assert_eq!(b.n_remain(), 20 - (i as u32 + 1));
    }
    for &xy in path.iter().rev() {
        b.remove(xy);
    }
    assert_eq!(b.n_remain(), 20);
    assert_eq!(snapshot(&b), initial);
}

#[test]
fn degrees_match_recount_after_each_step() {
    let mut b = enhanced::Board::new(5, 4);
    check_degrees(&b);
    let path = [(2, 2), (4, 3), (6, 2), (5, 4), (3, 5), (2, 3)];
    for &xy in path.iter() {
        b.put(xy);
        check_degrees(&b);
    }
    for &xy in path.iter().rev() {
        b.remove(xy);
        check_degrees(&b);
    }
}

#[test]
fn deadend_detection() {
    let mut b = naive::Board::new(3, 3);
    // The centre of a 3x3 board has no knight move inside the board.
    assert!(b.is_deadend((3, 3)));
    assert!(!b.is_deadend((2, 2)));
    b.put((3, 4));
    b.put((4, 3));
    // (2,2) reaches only (3,4) and (4,3).
    assert!(b.is_deadend((2, 2)));
    assert!(!b.is_deadend((3, 4)));
    assert!(!b.is_deadend((0, 0)));
}

#[test]
fn completion() {
    let mut b = naive::Board::new(3, 3);
    let mut k = 0;
    for y in 2..5 {
        for x in 2..5 {
            assert!(!b.is_completed());
            b.put((x, y));
            k += 1;
            assert_eq!(b.n(), k);
        }
    }
    assert!(b.is_completed());
    assert_eq!(b.w_inner() * b.h_inner(), 9);
}
