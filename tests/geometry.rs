use barnes_hut::geometry::{Bounds, Point};

fn p(x: i32, y: i32, z: i32) -> Point {
    Point::new(x, y, z)
}

#[test]
fn contains_is_closed() {
    let b = Bounds::new(p(0, 0, 0), 4);
    assert!(b.contains(p(4, -4, 4)));
    assert!(b.contains(p(0, 0, 0)));
    assert!(!b.contains(p(5, 0, 0)));
    assert!(!b.contains(p(0, -5, 0)));
    assert!(!b.contains(p(0, 0, 5)));
}

#[test]
fn octant_bits_follow_axes() {
    let b = Bounds::new(p(10, 20, 30), 8);
    assert_eq!(b.get_octant(&p(9, 19, 29)), 0);
    assert_eq!(b.get_octant(&p(11, 19, 29)), 1);
    assert_eq!(b.get_octant(&p(9, 21, 29)), 2);
    assert_eq!(b.get_octant(&p(9, 19, 31)), 4);
    assert_eq!(b.get_octant(&p(11, 21, 31)), 7);
}

#[test]
fn octant_on_dividing_plane_is_low() {
    let b = Bounds::new(p(0, 0, 0), 8);
    assert_eq!(b.get_octant(&p(0, 0, 0)), 0);
    assert_eq!(b.get_octant(&p(0, 1, 0)), 2);
    assert_eq!(b.get_octant(&p(3, 0, 0)), 1);
}

#[test]
fn octants_halve_and_shift_by_half_the_size() {
    let b = Bounds::new(p(0, 0, 0), 8);
    let o = b.into_octants();
    assert_eq!(o[0], Bounds::new(p(-4, -4, -4), 4));
    assert_eq!(o[1], Bounds::new(p(4, -4, -4), 4));
    assert_eq!(o[2], Bounds::new(p(-4, 4, -4), 4));
    assert_eq!(o[5], Bounds::new(p(4, -4, 4), 4));
    assert_eq!(o[7], Bounds::new(p(4, 4, 4), 4));
    assert_eq!(b.into_octant(6), Bounds::new(p(-4, 4, 4), 4));
}

#[test]
fn octants_tile_the_parent() {
    let b = Bounds::new(p(2, -2, 0), 4);
    let o = b.into_octants();
    for x in -2..=6 {
        for y in -6..=2 {
            for z in -4..=4 {
                let q = p(x, y, z);
                assert!(b.contains(q));
                let k = b.get_octant(&q);
                assert!(o[k].contains(q));
                let owners = o.iter().filter(|c| c.contains(q)).count();
                let on_plane = x == 2 || y == -2 || z == 0;
                assert!(owners == 1 || on_plane);
            }
        }
    }
    assert!(!o[0].contains(p(7, 0, 0)));
}

#[test]
fn only_even_cubes_split() {
    assert!(Bounds::new(p(0, 0, 0), 2).can_split());
    assert!(!Bounds::new(p(0, 0, 0), 3).can_split());
    assert!(!Bounds::new(p(0, 0, 0), 1).can_split());
    assert!(!Bounds::new(p(0, 0, 0), 0).can_split());
}
