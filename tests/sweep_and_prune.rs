use sweep_prune::radix_sort::coordinate_key;
use sweep_prune::sweep_and_prune::{
    find_candidates, sweep_and_prune, BoundingBox, CandidateBounds, Endpoints,
};

fn extent(lo: f64, hi: f64) -> (u64, u64) {
    (coordinate_key(lo.to_bits()), coordinate_key(hi.to_bits()))
}

fn bounding_volume(position: (f64, f64, f64), width: f64, length: f64, height: f64) -> BoundingBox {
    BoundingBox {
        x: extent(position.0, position.0 + width),
        y: extent(position.1, position.1 + length),
        z: extent(position.2, position.2 + height),
    }
}

#[test]
fn it_finds_two_colliding_volumes() {
    let volumes = vec![
        bounding_volume((1.0, 2.0, 0.0), 1.0, 1.0, 1.0),
        bounding_volume((1.5, 2.5, 0.0), 1.0, 1.0, 1.0),
    ];

    let colliding_pairs = sweep_and_prune(&volumes);

    assert_eq!(colliding_pairs[0].1, 0);
    assert_eq!(colliding_pairs[0].0, 1);
}

#[test]
fn apart_volumes_do_not_collide() {
    let volumes = vec![
        bounding_volume((0.0, 0.0, 0.0), 1.0, 1.0, 1.0),
        bounding_volume((2.0, 2.0, 2.0), 1.0, 1.0, 1.0),
    ];
    assert!(sweep_and_prune(&volumes).is_empty());
}

#[test]
fn only_the_first_two_of_three_cubes_collide() {
    let volumes = vec![
        bounding_volume((0.0, 0.0, 0.0), 1.0, 1.0, 1.0),
        bounding_volume((0.5, 0.0, 0.0), 1.0, 1.0, 1.0),
        bounding_volume((0.5, 0.0, 2.0), 1.0, 1.0, 1.0),
    ];
    let pairs = sweep_and_prune(&volumes);
    assert_eq!(pairs.len(), 1);
    let (a, b) = pairs[0];
    assert_eq!((a.min(b), a.max(b)), (0, 1));
}

#[test]
fn no_volumes_no_pairs() {
    assert!(sweep_and_prune(&Vec::<BoundingBox>::new()).is_empty());
}

#[test]
fn one_volume_no_pairs() {
    let volumes = vec![bounding_volume((0.0, 0.0, 0.0), 1.0, 1.0, 1.0)];
    assert!(sweep_and_prune(&volumes).is_empty());
}

#[test]
fn touching_on_x_and_y_counts() {
    let volumes = vec![
        bounding_volume((0.0, 0.0, 0.0), 1.0, 1.0, 1.0),
        bounding_volume((1.0, 1.0, 0.5), 1.0, 1.0, 1.0),
    ];
    assert_eq!(sweep_and_prune(&volumes), vec![(1, 0)]);
}

#[test]
fn touching_on_z_does_not_count() {
    let volumes = vec![
        bounding_volume((0.0, 0.0, 0.0), 1.0, 1.0, 1.0),
        bounding_volume((0.5, 0.5, 1.0), 1.0, 1.0, 1.0),
    ];
    assert!(sweep_and_prune(&volumes).is_empty());
}

#[test]
fn zero_signs_do_not_matter() {
    let volumes = vec![
        BoundingBox { x: extent(-1.0, -0.0), y: extent(0.0, 1.0), z: extent(0.0, 1.0) },
        BoundingBox { x: extent(0.0, 1.0), y: extent(0.0, 1.0), z: extent(0.0, 1.0) },
    ];
    assert_eq!(sweep_and_prune(&volumes).len(), 1);
}

#[test]
fn every_overlapping_pair_is_reported_once() {
    let mut volumes = Vec::new();
    for i in 0..6 {
        for j in 0..3 {
            let p = (i as f64 * 0.7, j as f64 * 0.9, (i + j) as f64 * 0.3);
            volumes.push(bounding_volume(p, 1.0, 1.0, 1.0));
        }
    }
    let pairs = sweep_and_prune(&volumes);
    let meets = |a: (u64, u64), b: (u64, u64)| a.0 <= b.1 && b.0 <= a.1;
    let strict = |a: (u64, u64), b: (u64, u64)| a.1 > b.0 && a.0 < b.1;
    for v in 0..volumes.len() {
        for w in (v + 1)..volumes.len() {
            let (a, b) = (volumes[v], volumes[w]);
            let expected = meets(a.x, b.x) && meets(a.y, b.y) && strict(a.z, b.z);
            let found = pairs.iter().filter(|&&p| p == (v, w) || p == (w, v)).count();
            assert_eq!(found, if expected { 1 } else { 0 });
        }
    }
    for &(a, b) in &pairs {
        assert_ne!(a, b);
        assert!(meets(volumes[a].x, volumes[b].x));
        assert!(meets(volumes[a].y, volumes[b].y));
        assert!(strict(volumes[a].z, volumes[b].z));
    }
}

#[test]
fn endpoints_put_lower_bounds_first() {
    let endpoints = Endpoints::new(&vec![(5, 9), (1, 2), (3, 4)]);
    assert_eq!(endpoints.0, vec![5, 1, 3, 9, 2, 4]);
    assert_eq!(endpoints.sort(), vec![1, 4, 2, 5, 0, 3]);
}

#[test]
fn equal_endpoints_open_before_close() {
    let endpoints = Endpoints::new(&vec![(0, 2), (2, 3)]);
    assert_eq!(endpoints.sort(), vec![0, 1, 2, 3]);
}

#[test]
fn candidate_bounds_start_zeroed() {
    let bounds = CandidateBounds::new(3);
    assert_eq!(bounds.lower, vec![0, 0, 0]);
    assert_eq!(bounds.upper, vec![0, 0, 0]);
    assert_eq!(bounds.ranks, vec![0, 0, 0]);
    assert_eq!(bounds.ranks_inv, vec![0, 0, 0]);
}

#[test]
fn find_candidates_ranks_in_opening_order() {
    let sorted = Endpoints::new(&vec![(0, 10), (1, 2), (5, 6)]).sort();
    assert_eq!(sorted, vec![0, 1, 4, 2, 5, 3]);
    let bounds = find_candidates(&sorted);
    assert_eq!(bounds.ranks, vec![0, 1, 2]);
    assert_eq!(bounds.ranks_inv, vec![0, 1, 2]);
    assert_eq!(bounds.lower, vec![0, 0, 0]);
    assert_eq!(bounds.upper, vec![3, 2, 3]);
}


#[test]
fn a_window_neighbour_apart_on_x_is_not_reported() {
    // The third box's window spans the ranks of both earlier boxes, and the
    // second box is still open on y when the third opens; their x-extents do
    // not meet, so that pair is left out.
    let volumes = vec![
        BoundingBox { x: extent(0.0, 10.0), y: extent(0.0, 1.0), z: extent(0.0, 1.0) },
        BoundingBox { x: extent(1.0, 2.0), y: extent(0.0, 1.0), z: extent(0.0, 1.0) },
        BoundingBox { x: extent(5.0, 6.0), y: extent(0.0, 1.0), z: extent(0.0, 1.0) },
    ];
    assert_eq!(sweep_and_prune(&volumes), vec![(1, 0), (2, 0)]);
}

#[test]
fn pairs_come_in_y_then_x_order() {
    let volumes = vec![
        BoundingBox { x: extent(2.0, 3.0), y: extent(0.0, 5.0), z: extent(0.0, 1.0) },
        BoundingBox { x: extent(0.0, 1.0), y: extent(0.0, 5.0), z: extent(0.0, 1.0) },
        BoundingBox { x: extent(0.5, 2.5), y: extent(1.0, 2.0), z: extent(0.0, 1.0) },
        BoundingBox { x: extent(0.0, 9.0), y: extent(0.5, 2.0), z: extent(0.0, 1.0) },
    ];
    assert_eq!(
        sweep_and_prune(&volumes),
        vec![(3, 1), (3, 0), (2, 1), (2, 3), (2, 0)],
    );
}
