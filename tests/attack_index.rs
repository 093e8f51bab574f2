use std::collections::HashSet;

use queens::utils::{calc_sees, calc_squares, calc_unattacked, Pos, See, Visited};

fn set(xs: &[i8]) -> HashSet<i8> {
    xs.iter().copied().collect()
}

#[test]
fn signature_of_a_square() {
    let s = See::new(&Pos(2, 5));
    assert_eq!(s, See { row: 2, col: 5, ldiag: -3, rdiag: 7 });
    let t = See::new(&Pos(7, 7));
    assert_eq!(t, See { row: 7, col: 7, ldiag: 0, rdiag: 14 });
}

#[test]
fn squares_of_a_row() {
    assert_eq!(calc_squares(3, 4), vec![Pos(3, 0), Pos(3, 1), Pos(3, 2), Pos(3, 3)]);
    assert!(calc_squares(0, 0).is_empty());
}

#[test]
fn sees_table_covers_the_board() {
    let sees = calc_sees(5);
    assert_eq!(sees.len(), 5);
    for r in 0..5i8 {
        assert_eq!(sees[r as usize].len(), 5);
        for c in 0..5i8 {
            assert_eq!(sees[r as usize][c as usize], See::new(&Pos(r, c)));
        }
    }
    assert_eq!(sees[1][4], See { row: 1, col: 4, ldiag: -3, rdiag: 5 });
    assert!(calc_sees(0).is_empty());
}

#[test]
fn push_fills_the_four_sets() {
    let mut v = Visited::new();
    v.push(&Pos(1, 3), &See::new(&Pos(1, 3)));
    assert_eq!(v.pos, vec![Pos(1, 3)]);
    assert_eq!(v.rows, set(&[1]));
    assert_eq!(v.cols, set(&[3]));
    assert_eq!(v.ldiags, set(&[-2]));
    assert_eq!(v.rdiags, set(&[4]));
}

#[test]
fn can_push_sees_every_line() {
    let mut v = Visited::new();
    v.push(&Pos(2, 2), &See::new(&Pos(2, 2)));
    assert!(!v.can_push(&See::new(&Pos(2, 0))));
    assert!(!v.can_push(&See::new(&Pos(0, 2))));
    assert!(!v.can_push(&See::new(&Pos(0, 0))));
    assert!(!v.can_push(&See::new(&Pos(0, 4))));
    assert!(v.can_push(&See::new(&Pos(0, 1))));
    assert!(v.can_push(&See::new(&Pos(3, 0))));
    assert!(Visited::new().can_push(&See::new(&Pos(0, 0))));
}

#[test]
fn push_then_pop_restores_the_trail() {
    let mut v = Visited::new();
    v.push(&Pos(0, 1), &See::new(&Pos(0, 1)));
    v.push(&Pos(1, 3), &See::new(&Pos(1, 3)));
    let (pos, seen) = (v.pos.clone(), v.seen.clone());
    let (rows, cols) = (v.rows.clone(), v.cols.clone());
    let (ldiags, rdiags) = (v.ldiags.clone(), v.rdiags.clone());
    v.push(&Pos(2, 0), &See::new(&Pos(2, 0)));
    v.pop();
    assert_eq!(v.pos, pos);
    assert_eq!(v.seen, seen);
    assert_eq!(v.rows, rows);
    assert_eq!(v.cols, cols);
    assert_eq!(v.ldiags, ldiags);
    assert_eq!(v.rdiags, rdiags);
}

#[test]
fn attack_sets_do_not_depend_on_order() {
    let squares = [Pos(0, 1), Pos(1, 3), Pos(2, 0), Pos(3, 2)];
    let mut a = Visited::new();
    for p in squares.iter() {
        a.push(p, &See::new(p));
    }
    let mut b = Visited::new();
    for p in squares.iter().rev() {
        b.push(p, &See::new(p));
    }
    assert_eq!(a.rows, b.rows);
    assert_eq!(a.cols, b.cols);
    assert_eq!(a.ldiags, b.ldiags);
    assert_eq!(a.rdiags, b.rdiags);
    for r in 0..4i8 {
        for c in 0..4i8 {
            let s = See::new(&Pos(r, c));
            assert_eq!(a.can_push(&s), b.can_push(&s));
        }
    }
}

#[test]
fn unattacked_squares_of_a_row() {
    let sees = calc_sees(4);
    let mut v = Visited::new();
    v.push(&Pos(0, 1), &sees[0][1]);
    let row1 = calc_squares(1, 4);
    assert_eq!(calc_unattacked(&row1, &v, &sees), vec![Pos(1, 3)]);
    let row2 = calc_squares(2, 4);
    assert_eq!(calc_unattacked(&row2, &v, &sees), vec![Pos(2, 0), Pos(2, 2)]);
}

#[test]
fn unattacked_skips_squares_off_the_table() {
    let sees = calc_sees(3);
    let v = Visited::new();
    let squares = vec![Pos(0, 0), Pos(0, 3), Pos(-1, 0), Pos(2, 2), Pos(5, 1)];
    assert_eq!(calc_unattacked(&squares, &v, &sees), vec![Pos(0, 0), Pos(2, 2)]);
}
