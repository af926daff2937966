use ricochet_robots::board::{Board, WallPos};
use ricochet_robots::geometry::{Move, Pos};
use ricochet_robots::move_log::SinglyLinkedList;
use ricochet_robots::search::{bfs, recolour, State};
use xorshift::{SeedableRng, Xorshift128};

fn pos(y: i8, x: i8) -> Pos {
    Pos { y, x }
}

fn mv(c: usize, d: usize) -> Move {
    Move { c, d }
}

/// Distances of every cell to the border, lowered by the given walls.
fn table(h: usize, w: usize, walls: &[WallPos]) -> Vec<Vec<Vec<usize>>> {
    let mut t: Vec<Vec<Vec<usize>>> = (0..h)
        .map(|y| (0..w).map(|x| vec![h - 1 - y, w - 1 - x, y, x]).collect())
        .collect();
    for wl in walls {
        let (y, x) = (wl.y as usize, wl.x as usize);
        if wl.d == 0 {
            for ty in 0..y {
                t[ty][x][0] = t[ty][x][0].min(y - 1 - ty);
            }
            for ty in y..h {
                t[ty][x][2] = t[ty][x][2].min(ty - y);
            }
        } else {
            for tx in 0..x {
                t[y][tx][1] = t[y][tx][1].min(x - 1 - tx);
            }
            for tx in x..w {
                t[y][tx][3] = t[y][tx][3].min(tx - x);
            }
        }
    }
    t
}

fn board(h: usize, w: usize, walls: Vec<WallPos>, robots: Vec<Pos>) -> Board {
    let walldist = table(h, w, &walls);
    Board { w, h, walls, walldist, robots }
}

fn corners() -> Vec<Pos> {
    vec![pos(0, 0), pos(0, 3), pos(3, 0), pos(3, 3)]
}

fn rng(a: u64, b: u64) -> Xorshift128 {
    SeedableRng::from_seed(&[a, b][..])
}

/// Plays `moves` (newest first) from the board's robots.
fn play(bo: &Board, moves: &[Move]) -> Vec<Pos> {
    let mut st = State::init_state(bo, SinglyLinkedList::nil());
    for m in moves.iter().rev() {
        st = st.move_to(m.c, m.d).expect("every move of the answer can be made");
    }
    st.robots.clone()
}

#[test]
fn log_round_trip() {
    let l = SinglyLinkedList::nil().cons(mv(0, 1)).cons(mv(1, 2)).cons(mv(2, 3));
    let mut v = l.to_vec();
    assert_eq!(v.len(), 3);
    v.reverse();
    assert_eq!(v, vec![mv(0, 1), mv(1, 2), mv(2, 3)]);
}

#[test]
fn log_tails_are_shared() {
    let base = SinglyLinkedList::nil().cons(mv(0, 0));
    let a = base.cons(mv(1, 1));
    let b = base.cons(mv(2, 2));
    assert_eq!(a.to_vec(), vec![mv(1, 1), mv(0, 0)]);
    assert_eq!(b.to_vec(), vec![mv(2, 2), mv(0, 0)]);
    assert_eq!(base.share().to_vec(), vec![mv(0, 0)]);
    assert!(SinglyLinkedList::nil().to_vec().is_empty());
}

#[test]
fn slide_stops_before_robot() {
    let bo = board(4, 4, vec![], corners());
    let st = State::init_state(&bo, SinglyLinkedList::nil());
    let r = st.move_to(0, 1).expect("robot 0 can move right");
    assert_eq!(r.robots, vec![pos(0, 2), pos(0, 3), pos(3, 0), pos(3, 3)]);
    assert_eq!(r.log.to_vec(), vec![mv(0, 1)]);
    let r = st.move_to(0, 0).expect("robot 0 can move down");
    assert_eq!(r.robots[0], pos(2, 0));
}

#[test]
fn slide_without_effect_is_none() {
    let bo = board(4, 4, vec![], corners());
    let st = State::init_state(&bo, SinglyLinkedList::nil());
    assert!(st.move_to(0, 2).is_none());
    assert!(st.move_to(0, 3).is_none());
    assert!(st.move_to(3, 0).is_none());
    assert!(st.move_to(3, 1).is_none());
    let bo = board(4, 4, vec![], vec![pos(0, 0), pos(1, 0), pos(3, 2), pos(3, 3)]);
    let st = State::init_state(&bo, SinglyLinkedList::nil());
    assert!(st.move_to(0, 0).is_none());
}

#[test]
fn slide_stops_at_wall() {
    let walls = vec![WallPos { y: 2, x: 0, d: 0 }, WallPos { y: 0, x: 2, d: 1 }];
    let bo = board(4, 4, walls, corners());
    let st = State::init_state(&bo, SinglyLinkedList::nil());
    assert_eq!(st.move_to(0, 0).unwrap().robots[0], pos(1, 0));
    assert_eq!(st.move_to(0, 1).unwrap().robots[0], pos(0, 1));
    assert_eq!(st.move_to(2, 2).unwrap().robots[2], pos(2, 0));
    assert_eq!(st.move_to(1, 3).unwrap().robots[1], pos(0, 2));
}

#[test]
fn enumerate_states_lists_every_possible_slide() {
    let bo = board(4, 4, vec![], corners());
    let st = State::init_state(&bo, SinglyLinkedList::nil());
    let all = st.enumerate_states();
    assert_eq!(all.len(), 8);
    assert_eq!(all[0].robots[0], pos(2, 0));
    assert_eq!(all[0].log.to_vec(), vec![mv(0, 0)]);
    assert_eq!(all[1].robots[0], pos(0, 2));
    assert_eq!(all[1].log.to_vec(), vec![mv(0, 1)]);
}

#[test]
fn state_keys_differ_by_configuration() {
    let bo = board(4, 4, vec![], corners());
    let st = State::init_state(&bo, SinglyLinkedList::nil());
    let a = st.move_to(0, 0).unwrap();
    let b = st.move_to(0, 1).unwrap();
    assert_ne!(st.key(), a.key());
    assert_ne!(a.key(), b.key());
    assert_eq!(st.key(), (((3 * 128 + 3) * 16384 + 3 * 128) * 16384 + 3) * 16384);
}

#[test]
fn open_board_is_not_valid() {
    let bo = board(4, 4, vec![], corners());
    assert!(!bo.good_board());
}

#[test]
fn two_by_two_board_is_valid() {
    let bo = board(2, 2, vec![], vec![pos(0, 0), pos(0, 1), pos(1, 0), pos(1, 1)]);
    assert!(bo.good_board());
}

#[test]
fn cut_off_board_is_not_valid() {
    let bo = board(2, 2, vec![WallPos { y: 1, x: 0, d: 0 }, WallPos { y: 1, x: 1, d: 0 }], corners());
    assert!(!bo.good_board());
}

#[test]
fn bfs_target_zero_gives_first_robot() {
    let bo = board(4, 4, vec![], corners());
    let ((c, p), moves) = bfs(0, &bo);
    assert_eq!(c, 0);
    assert_eq!(p, pos(0, 0));
    assert!(moves.is_empty());
}

#[test]
fn bfs_depth_one_on_open_board() {
    let bo = board(4, 4, vec![], corners());
    let ((c, p), moves) = bfs(1, &bo);
    assert_eq!((c, p), (0, pos(2, 0)));
    assert_eq!(moves, vec![mv(0, 0)]);
    assert!(p.y == 0 || p.y == 3 || p.x == 0 || p.x == 3);
    assert_eq!(play(&bo, &moves)[c], p);
}

#[test]
fn bfs_depth_two_on_open_board() {
    let bo = board(4, 4, vec![], corners());
    let ((c, p), moves) = bfs(2, &bo);
    assert_eq!((c, p), (0, pos(2, 3)));
    assert_eq!(moves, vec![mv(0, 1), mv(0, 0)]);
    assert_eq!(play(&bo, &moves)[c], p);
}

#[test]
fn bfs_answer_is_replayable_on_random_boards() {
    for seed in 1..6u64 {
        let bo = Board::new(6, 5, rng(seed, seed * 7 + 1), 10);
        let ((c, p), moves) = bfs(4, &bo);
        assert!(c < 4);
        assert!(moves.len() <= 4);
        assert_eq!(play(&bo, &moves)[c], p);
    }
}

#[test]
fn bfs_with_no_possible_move_gives_last_initial_pair() {
    let bo = board(2, 2, vec![], vec![pos(0, 0), pos(0, 1), pos(1, 0), pos(1, 1)]);
    let ((c, p), moves) = bfs(5, &bo);
    assert_eq!((c, p), (3, pos(1, 1)));
    assert!(moves.is_empty());
}

#[test]
fn new_board_without_walls() {
    let bo = Board::new(5, 5, rng(3, 4), 0);
    assert_eq!((bo.h, bo.w), (5, 5));
    assert!(bo.walls.is_empty());
    assert_eq!(bo.walldist, table(5, 5, &[]));
    assert_eq!(bo.robots.len(), 4);
    for i in 0..4 {
        assert!((bo.robots[i].y as usize) < 5 && (bo.robots[i].x as usize) < 5);
        for j in 0..i {
            assert_ne!(bo.robots[i], bo.robots[j]);
        }
    }
    assert!(!bo.good_board());
}

#[test]
fn new_board_with_walls_is_consistent() {
    for seed in 1..8u64 {
        for &(h, w) in &[(2usize, 2usize), (2, 3), (3, 3), (1, 4), (8, 8)] {
            let bo = Board::new(h, w, rng(seed, 99 - seed), 6);
            assert!(bo.walls.len() <= 12);
            assert_eq!(bo.walldist, table(h, w, &bo.walls));
            if !bo.walls.is_empty() {
                assert!(bo.good_board());
            }
            for i in 0..4 {
                assert!((bo.robots[i].y as usize) < h && (bo.robots[i].x as usize) < w);
                for j in 0..i {
                    assert_ne!(bo.robots[i], bo.robots[j]);
                }
            }
        }
    }
}

#[test]
fn two_by_two_board_keeps_walls() {
    let mut kept = false;
    for seed in 1..20u64 {
        let bo = Board::new(2, 2, rng(seed, seed + 5), 4);
        kept |= !bo.walls.is_empty();
        assert_eq!(bo.walldist, table(2, 2, &bo.walls));
        if !bo.walls.is_empty() {
            assert!(bo.good_board());
        }
    }
    assert!(kept);
}

#[test]
fn robots_are_drawn_at_random() {
    let first = Board::new(6, 6, rng(1, 2), 0).robots;
    let differs = (2..10u64).any(|seed| Board::new(6, 6, rng(seed, seed + 11), 0).robots != first);
    assert!(differs);
    assert_ne!(first, vec![pos(0, 0), pos(0, 1), pos(0, 2), pos(0, 3)]);
}

#[test]
fn bfs_goal_is_not_reachable_sooner() {
    let bo = board(4, 4, vec![], corners());
    let ((c, p), moves) = bfs(2, &bo);
    assert_eq!(moves.len(), 2);
    let init = State::init_state(&bo, SinglyLinkedList::nil());
    assert_ne!(init.robots[c], p);
    for st in init.enumerate_states() {
        assert_ne!(st.robots[c], p);
    }
}

#[test]
fn recolour_relabels_consistently() {
    let perm = vec![2, 0, 3, 1];
    let robots = vec![pos(0, 0), pos(0, 3), pos(3, 0), pos(3, 3)];
    let log = vec![mv(0, 1), mv(3, 2), mv(1, 0)];
    let ((c, p), moves, out) = recolour(&perm, (1, pos(2, 3)), &log, &robots);
    assert_eq!((c, p), (0, pos(2, 3)));
    assert_eq!(moves, vec![mv(0, 0), mv(1, 2), mv(2, 1)]);
    assert_eq!(out, vec![pos(0, 3), pos(3, 3), pos(0, 0), pos(3, 0)]);
}

fn top_row() -> Vec<Pos> {
    vec![pos(0, 0), pos(0, 1), pos(0, 2), pos(0, 3)]
}

#[test]
fn enumerate_states_in_robot_then_direction_order() {
    let bo = board(4, 4, vec![], top_row());
    let st = State::init_state(&bo, SinglyLinkedList::nil());
    let all = st.enumerate_states();
    assert_eq!(all.len(), 4);
    for i in 0..4 {
        let mut expected = top_row();
        expected[i] = pos(3, i as i8);
        assert_eq!(all[i].robots, expected);
        assert_eq!(all[i].log.to_vec(), vec![mv(i, 0)]);
    }
}

#[test]
fn bfs_depth_one_on_top_row_board() {
    let bo = board(4, 4, vec![], top_row());
    let ((c, p), moves) = bfs(1, &bo);
    assert_eq!((c, p), (0, pos(3, 0)));
    assert_eq!(moves, vec![mv(0, 0)]);
}

#[test]
fn bfs_target_zero_on_top_row_board() {
    let bo = board(4, 4, vec![], top_row());
    let ((c, p), moves) = bfs(0, &bo);
    assert_eq!((c, p), (0, pos(0, 0)));
    assert!(moves.is_empty());
}

#[test]
fn bfs_gives_the_same_answer_twice() {
    let bo = Board::new(6, 6, rng(5, 8), 12);
    let a = bfs(3, &bo);
    let b = bfs(3, &bo);
    assert_eq!(a.0, b.0);
    assert_eq!(a.1, b.1);
}

#[test]
fn try_walls_rejects_invalid_board() {
    let mut bo = board(4, 4, vec![], corners());
    let before = bo.walldist.clone();
    assert!(!bo.try_walls(1, 1, 1, 1));
    assert!(bo.walls.is_empty());
    assert_eq!(bo.walldist, before);
}

#[test]
fn try_walls_keeps_valid_walls() {
    let mut bo = board(2, 2, vec![], vec![pos(0, 0), pos(0, 1), pos(1, 0), pos(1, 1)]);
    assert!(bo.try_walls(0, 0, 1, 0));
    assert_eq!(bo.walls, vec![WallPos { y: 1, x: 0, d: 0 }]);
    assert_eq!(bo.walldist, table(2, 2, &bo.walls));
    assert!(bo.good_board());
}

#[test]
fn try_walls_without_proposal_keeps_walls() {
    let mut bo = board(2, 2, vec![], vec![pos(0, 0), pos(0, 1), pos(1, 0), pos(1, 1)]);
    assert!(bo.try_walls(0, 0, 0, 0));
    assert!(bo.walls.is_empty());
}

#[test]
fn try_walls_rejects_cutting_walls() {
    let mut bo = board(2, 2, vec![], vec![pos(0, 0), pos(0, 1), pos(1, 0), pos(1, 1)]);
    assert!(!bo.try_walls(0, 0, 1, 1));
    assert!(bo.walls.is_empty());
    assert_eq!(bo.walldist, table(2, 2, &[]));
}
