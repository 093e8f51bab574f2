use queens::queen::{place_queens, Placed};
use queens::utils::{calc_sees, Pos, Visited};

fn run(n: usize) -> (Placed, Visited) {
    let mut visited = Visited::new();
    let sees = calc_sees(n);
    let r = place_queens(&mut visited, &sees, 0, n);
    (r, visited)
}

fn assert_non_attacking(pos: &[Pos]) {
    for i in 0..pos.len() {
        for j in 0..pos.len() {
            if i != j {
                let (a, b) = (pos[i], pos[j]);
                assert_ne!(a.0, b.0);
                assert_ne!(a.1, b.1);
                assert_ne!(a.0 - a.1, b.0 - b.1);
                assert_ne!(a.0 + a.1, b.0 + b.1);
            }
        }
    }
}

#[test]
fn solvable_sizes_succeed() {
    for n in [1usize, 4, 5, 6, 7, 8] {
        let (r, _) = run(n);
        assert_eq!(r, Placed::Success, "n = {}", n);
    }
}

#[test]
fn sizes_two_and_three_fail() {
    for n in [2usize, 3] {
        let (r, v) = run(n);
        assert_eq!(r, Placed::Failure, "n = {}", n);
        assert!(v.pos.is_empty());
        assert!(v.seen.is_empty());
        assert!(v.rows.is_empty() && v.cols.is_empty());
        assert!(v.ldiags.is_empty() && v.rdiags.is_empty());
    }
}

#[test]
fn solutions_are_pairwise_non_attacking() {
    for n in [1usize, 4, 5, 6, 7, 8] {
        let (_, v) = run(n);
        assert_non_attacking(&v.pos);
        for (i, p) in v.pos.iter().enumerate() {
            assert_eq!(p.0 as usize, i);
            assert!((p.1 as usize) < n);
        }
    }
}

#[test]
fn trail_length_on_success_is_board_size() {
    for n in [1usize, 4, 5, 6, 7, 8] {
        let (_, v) = run(n);
        assert_eq!(v.pos.len(), n);
        assert_eq!(v.seen.len(), n);
        assert_eq!(v.rows.len(), n);
        assert_eq!(v.cols.len(), n);
    }
}

#[test]
fn one_queen_board() {
    let (r, v) = run(1);
    assert_eq!(r, Placed::Success);
    assert_eq!(v.pos, vec![Pos(0, 0)]);
}

#[test]
fn four_queens_first_solution() {
    let (r, v) = run(4);
    assert_eq!(r, Placed::Success);
    assert_non_attacking(&v.pos);
    assert_eq!(v.pos, vec![Pos(0, 1), Pos(1, 3), Pos(2, 0), Pos(3, 2)]);
}

#[test]
fn eight_queens_first_solution() {
    let (r, v) = run(8);
    assert_eq!(r, Placed::Success);
    let cols: Vec<i8> = v.pos.iter().map(|p| p.1).collect();
    assert_eq!(cols, vec![0, 4, 7, 5, 2, 6, 1, 3]);
}

#[test]
fn empty_board_succeeds_at_once() {
    let (r, v) = run(0);
    assert_eq!(r, Placed::Success);
    assert!(v.pos.is_empty());
}

#[test]
fn repeated_runs_give_the_same_solution() {
    for n in 1usize..=8 {
        let (r1, v1) = run(n);
        let (r2, v2) = run(n);
        assert_eq!(r1, r2);
        assert_eq!(v1.pos, v2.pos);
        assert_eq!(v1.seen, v2.seen);
    }
}

#[test]
fn search_continues_from_a_partial_trail() {
    let sees = calc_sees(4);
    let mut v = Visited::new();
    v.push(&Pos(0, 0), &sees[0][0]);
    // No solution of the four-queens board has a queen in a corner.
    assert_eq!(place_queens(&mut v, &sees, 1, 4), Placed::Failure);
    assert_eq!(v.pos, vec![Pos(0, 0)]);
    let mut w = Visited::new();
    w.push(&Pos(0, 2), &sees[0][2]);
    assert_eq!(place_queens(&mut w, &sees, 1, 4), Placed::Success);
    assert_eq!(w.pos, vec![Pos(0, 2), Pos(1, 0), Pos(2, 3), Pos(3, 1)]);
}
