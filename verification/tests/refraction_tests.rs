use tracer::refraction::refraction_boundary;

// The classic nested-glass-spheres arrangement: a ray pierces an outer
// sphere A that contains two overlapping inner spheres B and C. The
// t-sorted intersection list meets the objects in the order
// A, B, C, B, C, A, and the caller numbers them 0, 1 and 2.
fn glass_sphere_ids() -> Vec<usize> {
    vec![0, 1, 2, 1, 2, 0]
}

// Maps the boundary's answer to the refractive index the shading code
// would read: vacuum outside every object, A = 1.5, B = 2.0, C = 2.5.
fn index_of(id: Option<usize>) -> f64 {
    match id {
        None => 1.0,
        Some(0) => 1.5,
        Some(1) => 2.0,
        Some(2) => 2.5,
        Some(_) => unreachable!(),
    }
}

#[test]
fn finding_n1_and_n2_at_various_intersections() {
    let ids = glass_sphere_ids();
    let expected = [
        (1.0, 1.5),
        (1.5, 2.0),
        (2.0, 2.5),
        (2.5, 2.5),
        (2.5, 1.5),
        (1.5, 1.0),
    ];
    for (hit, (n1, n2)) in expected.iter().enumerate() {
        let (before, after) = refraction_boundary(&ids, hit);
        assert_eq!(index_of(before), *n1, "n1 at intersection {}", hit);
        assert_eq!(index_of(after), *n2, "n2 at intersection {}", hit);
    }
}

#[test]
fn a_lone_surface_borders_the_vacuum_on_both_sides() {
    let ids = vec![5, 5];
    assert_eq!(refraction_boundary(&ids, 0), (None, Some(5)));
    assert_eq!(refraction_boundary(&ids, 1), (Some(5), None));
}

#[test]
fn entering_an_object_inside_another() {
    let ids = vec![3, 4, 4, 3];
    assert_eq!(refraction_boundary(&ids, 0), (None, Some(3)));
    assert_eq!(refraction_boundary(&ids, 1), (Some(3), Some(4)));
    assert_eq!(refraction_boundary(&ids, 2), (Some(4), Some(3)));
    assert_eq!(refraction_boundary(&ids, 3), (Some(3), None));
}
