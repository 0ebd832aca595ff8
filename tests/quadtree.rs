use particle_sim::bound::{Bound, GridPoint, GRID, MAX_DEPTH};
use particle_sim::qtree::QuadTree;

fn pt(x: i64, y: i64) -> GridPoint {
    GridPoint { x, y }
}

fn held(tree: &QuadTree) -> Vec<i32> {
    let mut v: Vec<i32> = tree
        .stack
        .iter()
        .filter(|n| n.particle_contained != -1)
        .map(|n| n.particle_contained)
        .collect();
    v.sort();
    v
}

fn walk(tree: &QuadTree) -> Vec<usize> {
    let mut seen = Vec::new();
    let mut i = tree.first_visit();
    loop {
        seen.push(i);
        i = tree.advance(i, true);
        if i == 0 {
            break;
        }
    }
    seen
}

#[test]
fn bound_new_caches_size_squared() {
    let b = Bound::new(pt(2, 3), pt(6, 7));
    assert_eq!(b.size_squared, 16);
    assert_eq!(b.get_dim(), pt(4, 4));
}

#[test]
fn bound_overlap_needs_shared_area() {
    let a = Bound::new(pt(0, 0), pt(4, 4));
    assert!(a.is_overlap(&Bound::new(pt(3, 3), pt(5, 5))));
    assert!(!a.is_overlap(&Bound::new(pt(4, 0), pt(8, 4))));
    assert!(!a.is_overlap(&Bound::new(pt(0, 4), pt(4, 8))));
    assert!(a.is_overlap(&Bound::new(pt(-10, -10), pt(10, 10))));
}

#[test]
fn bound_in_bounds_is_half_open() {
    let a = Bound::new(pt(0, 0), pt(4, 4));
    assert!(a.in_bounds(pt(0, 0)));
    assert!(a.in_bounds(pt(3, 3)));
    assert!(!a.in_bounds(pt(4, 3)));
    assert!(!a.in_bounds(pt(-1, 0)));
}

#[test]
fn new_tree_is_single_empty_root() {
    let t = QuadTree::new();
    assert_eq!(t.stack.len(), 1);
    let root = t.stack[0];
    assert!(root.is_leaf);
    assert_eq!(root.particle_contained, -1);
    assert_eq!(root.next, 0);
    assert_eq!(root.bound.bot_left, pt(0, 0));
    assert_eq!(root.bound.top_right, pt(GRID, GRID));
    assert_eq!(t.first_visit(), 0);
}

#[test]
fn subdivide_threads_children() {
    let mut t = QuadTree::new();
    t.subdivide_node(0);
    assert_eq!(t.stack.len(), 5);
    assert!(!t.stack[0].is_leaf);
    assert_eq!(t.stack[0].children, 1);
    let nexts: Vec<usize> = t.stack[1..].iter().map(|n| n.next).collect();
    assert_eq!(nexts, vec![2, 3, 4, 0]);
    let half = GRID / 2;
    assert_eq!(t.stack[1].bound.bot_left, pt(0, 0));
    assert_eq!(t.stack[2].bound.bot_left, pt(half, 0));
    assert_eq!(t.stack[3].bound.bot_left, pt(0, half));
    assert_eq!(t.stack[4].bound.bot_left, pt(half, half));
    assert_eq!(t.stack[4].bound.top_right, pt(GRID, GRID));
    assert!(t.stack[1..].iter().all(|n| n.depth == 1 && n.is_leaf));
    t.subdivide_node(2);
    let nexts: Vec<usize> = t.stack[5..].iter().map(|n| n.next).collect();
    assert_eq!(nexts, vec![6, 7, 8, 3]);
}

#[test]
fn single_particle_stays_in_root() {
    let mut t = QuadTree::new();
    t.build(&vec![pt(7, 9)]);
    assert_eq!(t.stack.len(), 1);
    assert_eq!(t.stack[0].particle_contained, 0);
    assert_eq!(t.first_visit(), 0);
    assert_eq!(t.idx_bound(&Bound::new(pt(0, 0), pt(10, 10))), vec![0]);
}

#[test]
fn two_far_particles_split_root_once() {
    let mut t = QuadTree::new();
    t.build(&vec![pt(10, 10), pt(GRID - 10, GRID - 10)]);
    assert_eq!(t.stack.len(), 5);
    assert_eq!(t.stack[1].particle_contained, 0);
    assert_eq!(t.stack[4].particle_contained, 1);
    assert_eq!(t.idx_pos(pt(GRID - 1, 0)), 2);
    assert_eq!(t.idx_pos(pt(10, 10)), 1);
    assert_eq!(t.idx_bound(&Bound::new(pt(0, 0), pt(100, 100))), vec![0]);
    assert_eq!(t.idx_bound(&Bound::new(pt(-5, -5), pt(GRID + 5, GRID + 5))), vec![0, 1]);
    assert_eq!(t.idx_bound(&Bound::new(pt(GRID / 2, 0), pt(GRID, GRID / 2))), Vec::<usize>::new());
}

#[test]
fn equal_cells_hit_depth_cap() {
    let mut t = QuadTree::new();
    t.build(&vec![pt(5, 5), pt(5, 5)]);
    assert_eq!(t.stack.len(), 1 + 4 * MAX_DEPTH as usize);
    assert_eq!(held(&t), vec![1]);
    assert!(t.stack.iter().all(|n| n.depth <= MAX_DEPTH));
}

#[test]
fn neighbouring_cells_part_at_last_level() {
    let mut t = QuadTree::new();
    t.build(&vec![pt(0, 0), pt(1, 0)]);
    assert_eq!(t.stack.len(), 1 + 4 * MAX_DEPTH as usize);
    assert_eq!(held(&t), vec![0, 1]);
    let deepest = t.stack.iter().filter(|n| n.particle_contained != -1).map(|n| n.depth).max();
    assert_eq!(deepest, Some(MAX_DEPTH));
}

#[test]
fn full_walk_visits_every_node_once() {
    let mut t = QuadTree::new();
    let cells: Vec<GridPoint> = (0..40).map(|i| pt((i * 6151) % GRID, (i * 104729) % GRID)).collect();
    t.build(&cells);
    let mut seen = walk(&t);
    assert_eq!(seen[0], 1);
    seen.sort();
    let expected: Vec<usize> = (1..t.stack.len()).collect();
    assert_eq!(seen, expected);
    assert_eq!(held(&t), (0..40).collect::<Vec<i32>>());
}

#[test]
fn skipping_walk_follows_escape_index() {
    let mut t = QuadTree::new();
    t.build(&vec![pt(10, 10), pt(20, 20), pt(GRID - 10, GRID - 10)]);
    let first = t.first_visit();
    assert_eq!(first, 1);
    assert_eq!(t.advance(first, false), t.stack[1].next);
    assert_eq!(t.advance(first, true), t.stack[1].children);
    assert_eq!(t.advance(4, true), 0);
}

#[test]
fn rebuild_gives_identical_nodes() {
    let cells: Vec<GridPoint> = (0..50).map(|i| pt((i * 7919) % GRID, (i * 15485) % GRID)).collect();
    let mut a = QuadTree::new();
    a.build(&cells);
    let mut b = QuadTree::new();
    b.build(&cells);
    assert_eq!(a.stack, b.stack);
    a.build(&cells);
    assert_eq!(a.stack, b.stack);
}

#[test]
fn reset_keeps_only_root() {
    let mut t = QuadTree::new();
    t.build(&vec![pt(10, 10), pt(GRID - 10, GRID - 10)]);
    t.reset();
    assert_eq!(t.stack.len(), 1);
    assert!(t.stack[0].is_leaf);
    assert_eq!(t.stack[0].particle_contained, -1);
}

#[test]
fn add_particle_reuses_empty_leaf() {
    let cells = vec![pt(10, 10), pt(GRID - 10, GRID - 10), pt(GRID - 10, 10)];
    let mut t = QuadTree::new();
    t.add_particle(&cells, 0);
    t.add_particle(&cells, 1);
    t.add_particle(&cells, 2);
    assert_eq!(t.stack.len(), 5);
    assert_eq!(t.stack[2].particle_contained, 2);
    assert_eq!(t.idx_pos_single(0, pt(GRID - 10, 10)), 2);
}
