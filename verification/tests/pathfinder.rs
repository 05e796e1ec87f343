use rustbatch::field::INFINITY;
use rustbatch::pathfinder::{field_step, Data, PathFinder};

#[test]
fn update_test() {
    let costs = vec![vec![1; 10]; 10];
    let chan = std::sync::mpsc::channel();
    let mut pro = Data::new(10, 10, chan.1, &costs);
    pro.processor.frontier.push((0, 0));
    let d = &mut pro;
    d.processor.update(&mut d.map, 10, 10);
    for i in pro.map.iter() {
        println!("{:?}", i);
    }
}

#[test]
fn single_source_manhattan_distances() {
    let costs = vec![vec![1; 4]; 3];
    let mut pf = PathFinder::new(&costs);
    pf.update(&vec![(0, 0)], &vec![]);
    for y in 0..3usize {
        for x in 0..4usize {
            assert_eq!(pf.data.map[y][x], (x + y) as i32);
        }
    }
}

#[test]
fn blocked_tile_never_reached_or_entered() {
    let mut costs = vec![vec![1; 3]; 3];
    costs[1][1] = INFINITY;
    let mut pf = PathFinder::new(&costs);
    pf.update(&vec![(0, 0)], &vec![]);
    assert_eq!(pf.data.map[1][1], INFINITY);
    // from any tile, the greedy step never lands on the blocked centre
    for y in 0..3usize {
        for x in 0..3usize {
            assert_ne!(pf.get_step((x, y)), (1, 1));
        }
    }
}

#[test]
fn empty_frontier_publishes_all_unreachable() {
    let costs = vec![vec![1; 4]; 4];
    let mut pf = PathFinder::new(&costs);
    pf.update(&vec![], &vec![]);
    for y in 0..4usize {
        for x in 0..4usize {
            assert_eq!(pf.data.map[y][x], INFINITY);
        }
    }
}

#[test]
fn rising_costs_never_shrink_distances() {
    let costs = vec![vec![1; 3]; 3];
    let mut low = PathFinder::new(&costs);
    low.update(&vec![(0, 0)], &vec![]);
    let mut high = PathFinder::new(&costs);
    high.update(&vec![(0, 0)], &vec![(1, 0, 5), (1, 1, INFINITY)]);
    for y in 0..3usize {
        for x in 0..3usize {
            let d2 = high.data.map[y][x];
            if d2 != INFINITY {
                let d1 = low.data.map[y][x];
                assert_ne!(d1, INFINITY);
                assert!(d1 <= d2);
            }
        }
    }
    // spot checks: entering (1, 0) now costs 5, and (1, 1) is off limits
    assert_eq!(high.data.map[0][1], 5);
    assert_eq!(high.data.map[1][1], INFINITY);
    assert_eq!(high.data.map[0][2], 6);
}

#[test]
fn diagonal_step_blocked_on_both_corners() {
    let mut costs = vec![vec![1; 3]; 3];
    costs[0][1] = INFINITY; // tile (1, 0)
    costs[1][0] = INFINITY; // tile (0, 1)
    let mut pf = PathFinder::new(&costs);
    pf.update(&vec![(1, 1)], &vec![]);
    assert_eq!(pf.data.map[1][1], 0);
    // both corners shared with the diagonal (1, 1) are unreachable, so the
    // step from the corner must stay in place
    assert_eq!(pf.get_step((0, 0)), (0, 0));
}

#[test]
fn cancellation_skips_publish_and_relaunch_recovers() {
    let costs = vec![vec![1; 5]; 5];
    let mut pf = PathFinder::new(&costs);
    // a pending token preempts the next pass: nothing is published
    pf.terminator.send(()).unwrap();
    pf.update(&vec![(2, 2)], &vec![]);
    for y in 0..5usize {
        for x in 0..5usize {
            assert_eq!(pf.data.map[y][x], INFINITY);
        }
    }
    // the relaunch with the current frontier publishes exactly one field
    pf.update(&vec![(2, 2)], &vec![]);
    assert_eq!(pf.data.map[2][2], 0);
    assert_eq!(pf.data.map[0][0], 4);
}

#[test]
fn five_by_five_scenario() {
    let costs = vec![vec![1; 5]; 5];
    let mut pf = PathFinder::new(&costs);
    pf.update(&vec![(2, 2)], &vec![]);
    let expect = |x: usize, y: usize| -> i32 {
        ((x as i32) - 2).abs() + ((y as i32) - 2).abs()
    };
    for y in 0..5usize {
        for x in 0..5usize {
            assert_eq!(pf.data.map[y][x], expect(x, y));
        }
    }
    // from the corner, the diagonal (1, 1) carries distance 2, beats the
    // distance-3 orthogonals, and passes the corner rule
    assert_eq!(pf.get_step((0, 0)), (1, 1));
    // on the frontier tile itself no neighbor improves on staying
    assert_eq!(pf.get_step((2, 2)), (2, 2));
}

#[test]
fn field_step_matches_get_step() {
    let costs = vec![vec![1; 5]; 5];
    let mut pf = PathFinder::new(&costs);
    pf.update(&vec![(4, 4)], &vec![]);
    for y in 0..5usize {
        for x in 0..5usize {
            assert_eq!(pf.get_step((x, y)), field_step(&pf.data.map, 5, 5, (x, y)));
        }
    }
}

#[test]
fn accumulated_frontier_spans_both_calls() {
    let costs = vec![vec![1; 5]; 1];
    let mut pf = PathFinder::new(&costs);
    pf.update(&vec![(0, 0)], &vec![]);
    assert_eq!(pf.data.map[0], vec![0, 1, 2, 3, 4]);
    // the drained queue is gone: the next pass floods only from its own seeds
    pf.update(&vec![(4, 0)], &vec![]);
    assert_eq!(pf.data.map[0], vec![4, 3, 2, 1, 0]);
}

#[test]
fn step_moves_only_when_strictly_better() {
    let costs = vec![vec![1; 2]; 1];
    let mut pf = PathFinder::new(&costs);
    pf.update(&vec![(0, 0)], &vec![]);
    assert_eq!(pf.data.map[0], vec![0, 1]);
    // the goal tile's only neighbor is no better than staying: stay
    assert_eq!(pf.get_step((0, 0)), (0, 0));
    // one tile out, the goal is strictly closer: move
    assert_eq!(pf.get_step((1, 0)), (0, 0));
}

#[test]
fn step_leaves_an_unreachable_tile_for_any_reachable_neighbor() {
    let mut costs = vec![vec![1; 2]; 1];
    costs[0][1] = INFINITY; // the agent stands on an impassable tile
    let mut pf = PathFinder::new(&costs);
    pf.update(&vec![(0, 0)], &vec![]);
    assert_eq!(pf.data.map[0], vec![0, INFINITY]);
    assert_eq!(pf.get_step((1, 0)), (0, 0));
}
