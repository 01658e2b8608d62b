use barnes_hut::geometry::{Bounds, Point};
use barnes_hut::octree::{Moment, Octree, Term};

fn p(x: i32, y: i32, z: i32) -> Point {
    Point::new(x, y, z)
}

/// Float repulsion on a body at `q` from each term, as the solver defines it.
fn force_from(terms: &[Term], q: Point, mass: f32, repulsion: f32) -> [f32; 3] {
    let mut f = [0.0f32; 3];
    for t in terms {
        let m = t.mass as f32;
        let c = [t.moment.x as f32 / m, t.moment.y as f32 / m, t.moment.z as f32 / m];
        let d = [c[0] - q.x as f32, c[1] - q.y as f32, c[2] - q.z as f32];
        let l = (d[0] * d[0] + d[1] * d[1] + d[2] * d[2]).sqrt();
        if l >= 0.01 {
            for k in 0..3 {
                f[k] -= d[k] / l * mass * m * repulsion / (l * l);
            }
        }
    }
    f
}

fn term_mass(terms: &[Term]) -> u64 {
    terms.iter().map(|t| t.mass).sum()
}

#[test]
fn new_tree_is_one_empty_root() {
    let t = Octree::new(p(1, 2, 3), 16);
    assert_eq!(t.node_count(), 1);
    let r = t.node(0);
    assert_eq!(r.mass, 0);
    assert!(r.is_leaf());
    assert!(r.is_empty());
    assert_eq!(r.bounds, Bounds::new(p(1, 2, 3), 16));
    assert_eq!(t.total(), 0);
}

#[test]
fn first_body_lands_in_root() {
    let mut t = Octree::new(p(0, 0, 0), 16);
    t.insert(p(3, -2, 5), 7);
    assert_eq!(t.node_count(), 1);
    let r = t.node(0);
    assert_eq!(r.mass, 7);
    assert_eq!(r.point, p(3, -2, 5));
    assert_eq!(r.moment, Moment { x: 21, y: -14, z: 35 });
}

#[test]
fn two_opposite_bodies_balance_at_center() {
    let mut t = Octree::new(p(0, 0, 0), 10);
    t.insert(p(1, 0, 0), 1);
    t.insert(p(-1, 0, 0), 1);
    t.backpropagate();
    let r = t.node(0);
    assert_eq!(r.mass, 2);
    assert_eq!(r.moment, Moment { x: 0, y: 0, z: 0 });
    let terms = t.interaction_list(p(1, 0, 0), 0, 1);
    assert_eq!(terms.len(), 2);
    let f = force_from(&terms, p(1, 0, 0), 1.0, 1.0);
    assert!(f[0] > 0.0);
    assert!((f[0] - 0.25).abs() < 1e-6);
    assert_eq!(f[1], 0.0);
    assert_eq!(f[2], 0.0);
}

#[test]
fn same_position_merges_without_split() {
    let mut t = Octree::new(p(0, 0, 0), 64);
    t.insert(p(5, 5, 5), 2);
    t.insert(p(5, 5, 5), 3);
    assert_eq!(t.node_count(), 1);
    assert_eq!(t.node(0).mass, 5);
    assert_eq!(t.node(0).moment, Moment { x: 25, y: 25, z: 25 });
    t.insert(p(-5, 5, 5), 1);
    let n = t.node_count();
    t.insert(p(-5, 5, 5), 1);
    assert_eq!(t.node_count(), n);
    t.backpropagate();
    assert_eq!(t.node(0).mass, 7);
}

#[test]
fn distinct_bodies_split_the_leaf() {
    let mut t = Octree::new(p(0, 0, 0), 64);
    t.insert(p(5, 5, 5), 2);
    t.insert(p(-5, -5, -5), 3);
    assert_eq!(t.node_count(), 9);
    let r = t.node(0);
    assert_eq!(r.children, Some(1));
    assert_eq!(r.mass, 0);
    assert_eq!(t.node(1).mass, 3);
    assert_eq!(t.node(1).point, p(-5, -5, -5));
    assert_eq!(t.node(8).mass, 2);
    assert_eq!(t.node(8).point, p(5, 5, 5));
    for k in 0..8usize {
        assert_eq!(t.node(1 + k).bounds, r.bounds.into_octant(k));
    }
}

#[test]
fn near_coincident_bodies_stop_at_bounded_depth() {
    let size: u32 = 1 << 20;
    let mut t = Octree::new(p(0, 0, 0), size);
    t.insert(p(1, 1, 1), 1);
    t.insert(p(2, 1, 1), 1);
    t.insert(p(3, 1, 2), 1);
    assert!(t.node_count() <= 1 + 8 * 2 * 21);
    t.backpropagate();
    assert_eq!(t.node(0).mass, 3);
    for i in 0..t.node_count() {
        let n = t.node(i);
        if let Some(c) = n.children {
            assert!(c > i);
            assert!(n.bounds.size >= 2);
        }
    }
}

#[test]
fn smallest_cube_absorbs_distinct_bodies() {
    let mut t = Octree::new(p(0, 0, 0), 3);
    t.insert(p(1, 0, 0), 2);
    t.insert(p(-1, 2, 0), 3);
    assert_eq!(t.node_count(), 1);
    let r = t.node(0);
    assert_eq!(r.mass, 5);
    assert_eq!(r.point, p(1, 0, 0));
    assert_eq!(r.moment, Moment { x: -1, y: 6, z: 0 });
}

#[test]
fn clear_resets_to_one_empty_root() {
    let mut t = Octree::new(p(0, 0, 0), 256);
    for i in 0..20 {
        t.insert(p(i * 7 - 70, 100 - i * 9, i * 3), 1 + i as u64);
    }
    t.backpropagate();
    assert!(t.node_count() > 1);
    t.clear();
    assert_eq!(t.node_count(), 1);
    assert_eq!(t.node(0).mass, 0);
    assert!(t.node(0).is_leaf());
    assert_eq!(t.node(0).bounds, Bounds::new(p(0, 0, 0), 256));
    assert_eq!(t.total(), 0);
    t.backpropagate();
    assert_eq!(t.node(0).mass, 0);
}

#[test]
fn root_mass_sums_insertions() {
    let mut t = Octree::new(p(0, 0, 0), 1024);
    let mut sum = 0u64;
    let mut seed: u64 = 12345;
    for _ in 0..200 {
        seed = seed.wrapping_mul(6364136223846793005).wrapping_add(1442695040888963407);
        let x = (seed >> 33) as i32 % 1000 - 500;
        let y = (seed >> 13) as i32 % 1000 - 500;
        let z = (seed >> 43) as i32 % 1000 - 500;
        let m = seed % 17 + 1;
        t.insert(p(x, y, z), m);
        sum += m;
    }
    t.insert(p(7, 7, 7), 4);
    t.insert(p(7, 7, 7), 4);
    sum += 8;
    assert_eq!(t.total(), sum);
    t.backpropagate();
    assert_eq!(t.node(0).mass, sum);
}

#[test]
fn aggregation_sums_children() {
    let mut t = Octree::new(p(0, 0, 0), 64);
    t.insert(p(10, 10, 10), 1);
    t.insert(p(12, 10, 10), 2);
    t.insert(p(-30, 5, 0), 4);
    t.backpropagate();
    for i in 0..t.node_count() {
        let n = t.node(i);
        if let Some(c) = n.children {
            let mut m = 0u64;
            let mut mx = 0i128;
            for k in 0..8 {
                m += t.node(c + k).mass;
                mx += t.node(c + k).moment.x;
            }
            assert_eq!(n.mass, m);
            assert_eq!(n.moment.x, mx);
        }
    }
    assert_eq!(t.node(0).mass, 7);
    assert_eq!(t.node(0).moment, Moment { x: 10 + 24 - 120, y: 10 + 20 + 20, z: 30 });
}

#[test]
fn far_query_sees_one_cluster() {
    let mut t = Octree::new(p(0, 0, 0), 8);
    t.insert(p(1, 1, 1), 1);
    t.insert(p(-1, -1, -1), 1);
    t.backpropagate();
    let terms = t.interaction_list(p(1000, 0, 0), 1, 1);
    assert_eq!(terms, vec![Term { mass: 2, moment: Moment { x: 0, y: 0, z: 0 } }]);
    let exact = t.interaction_list(p(1000, 0, 0), 0, 1);
    assert_eq!(exact.len(), 2);
}

#[test]
fn query_inside_a_node_opens_it() {
    let mut t = Octree::new(p(0, 0, 0), 8);
    t.insert(p(1, 1, 1), 1);
    t.insert(p(-1, -1, -1), 1);
    t.backpropagate();
    let terms = t.interaction_list(p(0, 0, 0), 1000, 1);
    assert_eq!(terms.len(), 2);
}

#[test]
fn empty_tree_has_no_terms() {
    let t = Octree::new(p(0, 0, 0), 8);
    assert!(t.interaction_list(p(0, 0, 0), 0, 1).is_empty());
}

#[test]
fn terms_carry_all_mass_for_every_theta() {
    let mut t = Octree::new(p(0, 0, 0), 1 << 12);
    let mut seed: u64 = 99;
    for _ in 0..50 {
        seed = seed.wrapping_mul(6364136223846793005).wrapping_add(1442695040888963407);
        let x = (seed >> 33) as i32 % 2000 - 1000;
        let y = (seed >> 13) as i32 % 2000 - 1000;
        let z = (seed >> 43) as i32 % 2000 - 1000;
        t.insert(p(x, y, z), seed % 5 + 1);
    }
    t.backpropagate();
    let root = t.node(0).mass;
    for (num, den) in [(0u32, 1u32), (1, 4), (1, 2), (1, 1), (3, 1), (100, 1)] {
        let terms = t.interaction_list(p(17, -40, 3), num, den);
        assert_eq!(term_mass(&terms), root);
    }
}

#[test]
fn theta_zero_matches_pairwise_sum() {
    let mut t = Octree::new(p(0, 0, 0), 1 << 10);
    let mut bodies = Vec::new();
    let mut seed: u64 = 7;
    for _ in 0..50 {
        seed = seed.wrapping_mul(6364136223846793005).wrapping_add(1442695040888963407);
        let x = (seed >> 33) as i32 % 1000 - 500;
        let y = (seed >> 13) as i32 % 1000 - 500;
        let z = (seed >> 43) as i32 % 1000 - 500;
        bodies.push(p(x, y, z));
        t.insert(p(x, y, z), 1);
    }
    t.backpropagate();
    for q in bodies.iter().take(10) {
        let terms = t.interaction_list(*q, 0, 1);
        assert_eq!(terms.len(), 50);
        let approx = force_from(&terms, *q, 1.0, 1.0);
        let direct: Vec<Term> = bodies
            .iter()
            .map(|b| Term { mass: 1, moment: Moment { x: b.x as i128, y: b.y as i128, z: b.z as i128 } })
            .collect();
        let exact = force_from(&direct, *q, 1.0, 1.0);
        for k in 0..3 {
            assert!((approx[k] - exact[k]).abs() <= 1e-6 + 1e-4 * exact[k].abs());
        }
        let coarse = t.interaction_list(*q, 1, 2);
        assert!(coarse.len() <= terms.len());
    }
}

#[test]
fn force_is_antisymmetric_between_two_bodies() {
    let mut t = Octree::new(p(0, 0, 0), 64);
    t.insert(p(3, -2, 7), 2);
    t.insert(p(-5, 4, 1), 3);
    t.backpropagate();
    let fa = force_from(&t.interaction_list(p(3, -2, 7), 0, 1), p(3, -2, 7), 2.0, 0.5);
    let fb = force_from(&t.interaction_list(p(-5, 4, 1), 0, 1), p(-5, 4, 1), 3.0, 0.5);
    for k in 0..3 {
        assert!((fa[k] + fb[k]).abs() < 1e-6);
    }
}

#[test]
fn four_bodies_center_of_mass() {
    // World half-size 1 scaled by 64 onto the grid.
    let mut t = Octree::new(p(0, 0, 0), 64);
    t.insert(p(32, 32, 32), 1);
    t.insert(p(32, 32, 32), 2);
    t.insert(p(-32, 16, 8), 3);
    t.insert(p(16, -32, -32), 2);
    t.backpropagate();
    let r = t.node(0);
    assert_eq!(r.mass, 8);
    assert_eq!(r.moment, Moment { x: 32 * 3 - 96 + 32, y: 96 + 48 - 64, z: 96 + 24 - 64 });
    assert_eq!(r.moment.x as f64 / 8.0 / 64.0, 0.0625);
    assert_eq!(r.moment.y as f64 / 8.0 / 64.0, 0.15625);
    assert_eq!(r.moment.z as f64 / 8.0 / 64.0, 0.109375);
}

#[test]
fn split_keeps_both_bodies_in_own_leaves() {
    let mut t = Octree::new(p(0, 0, 0), 1 << 10);
    t.insert(p(-900, 0, 0), 1);
    t.insert(p(-950, 0, 0), 1);
    let leaves: Vec<_> = (0..t.node_count()).map(|i| t.node(i)).filter(|n| n.is_leaf() && n.mass > 0).collect();
    assert_eq!(leaves.len(), 2);
    for n in &leaves {
        assert!(n.bounds.contains(n.point));
        assert_eq!(n.moment.x, n.point.x as i128);
    }
    assert!(leaves.iter().any(|n| n.point == p(-900, 0, 0)));
    assert!(leaves.iter().any(|n| n.point == p(-950, 0, 0)));
    assert_eq!((t.node_count() - 1) % 8, 0);
}

#[test]
fn aggregation_twice_changes_nothing() {
    let mut t = Octree::new(p(0, 0, 0), 64);
    t.insert(p(10, 10, 10), 1);
    t.insert(p(12, 10, 10), 2);
    t.insert(p(-30, 5, 0), 4);
    t.backpropagate();
    let first: Vec<_> = (0..t.node_count()).map(|i| format!("{:?}", t.node(i))).collect();
    t.backpropagate();
    let second: Vec<_> = (0..t.node_count()).map(|i| format!("{:?}", t.node(i))).collect();
    assert_eq!(first, second);
}
