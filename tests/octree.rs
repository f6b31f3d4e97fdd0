use rust_physics::octree::{build_tree, octant_of, select_octant, Cell, Point3};

fn p(x: u32, y: u32, z: u32) -> Point3 {
    Point3 { x, y, z }
}

fn root(t: &[Cell]) -> &Cell {
    t.last().unwrap()
}

#[test]
fn empty_tree_has_one_empty_root() {
    let t = build_tree(&Vec::new(), 8);
    assert_eq!(t.len(), 1);
    assert!(root(&t).bodies.is_empty());
    assert!(root(&t).children.is_empty());
    assert_eq!(root(&t).side, 8);
}

#[test]
fn single_body_is_a_leaf() {
    let t = build_tree(&vec![p(3, 1, 2)], 8);
    assert_eq!(t.len(), 1);
    assert_eq!(root(&t).bodies, vec![0]);
}

#[test]
fn two_bodies_split_into_octants() {
    let t = build_tree(&vec![p(0, 0, 0), p(7, 7, 7)], 8);
    let r = root(&t);
    assert_eq!(r.bodies, vec![0, 1]);
    assert_eq!(r.children.len(), 8);
    let low = &t[r.children[0]];
    let high = &t[r.children[7]];
    assert_eq!(low.bodies, vec![0]);
    assert_eq!((low.x, low.y, low.z, low.side), (0, 0, 0, 4));
    assert_eq!(high.bodies, vec![1]);
    assert_eq!((high.x, high.y, high.z, high.side), (4, 4, 4, 4));
    for o in 1..7 {
        assert!(t[r.children[o]].bodies.is_empty());
    }
}

#[test]
fn every_body_reaches_exactly_one_leaf() {
    let pts = vec![p(0, 0, 0), p(1, 0, 0), p(5, 6, 7), p(5, 6, 6), p(2, 7, 1)];
    let t = build_tree(&pts, 8);
    let mut seen = vec![0usize; pts.len()];
    for c in &t {
        if c.children.is_empty() {
            assert!(c.bodies.len() <= 1 || c.side == 1);
            for &b in &c.bodies {
                seen[b] += 1;
            }
        } else {
            assert!(c.bodies.len() >= 2);
            let total: usize = c.children.iter().map(|&i| t[i].bodies.len()).sum();
            assert_eq!(total, c.bodies.len());
        }
    }
    assert_eq!(root(&t).bodies.len(), 5);
    assert_eq!(seen, vec![1; 5]);
}

#[test]
fn coincident_bodies_share_a_unit_leaf() {
    let t = build_tree(&vec![p(2, 2, 2), p(2, 2, 2)], 4);
    let leaf = t.iter().find(|c| c.children.is_empty() && c.bodies.len() == 2).unwrap();
    assert_eq!(leaf.side, 1);
    assert_eq!((leaf.x, leaf.y, leaf.z), (2, 2, 2));
}

#[test]
fn body_outside_root_is_dropped() {
    let t = build_tree(&vec![p(1, 1, 1), p(9, 0, 0)], 8);
    assert_eq!(root(&t).bodies, vec![0]);
}

#[test]
fn octant_bits() {
    assert_eq!(octant_of(p(0, 0, 0), 0, 0, 0, 8), 0);
    assert_eq!(octant_of(p(4, 0, 0), 0, 0, 0, 8), 1);
    assert_eq!(octant_of(p(0, 4, 0), 0, 0, 0, 8), 2);
    assert_eq!(octant_of(p(0, 0, 4), 0, 0, 0, 8), 4);
    assert_eq!(octant_of(p(7, 7, 7), 0, 0, 0, 8), 7);
    assert_eq!(octant_of(p(3, 3, 3), 0, 0, 0, 8), 0);
}

#[test]
fn select_octant_keeps_order() {
    let pts = vec![p(5, 0, 0), p(0, 0, 0), p(6, 1, 1)];
    assert_eq!(select_octant(&pts, &vec![0, 1, 2], 0, 0, 0, 8, 1), vec![0, 2]);
    assert_eq!(select_octant(&pts, &vec![0, 1, 2], 0, 0, 0, 8, 0), vec![1]);
}
