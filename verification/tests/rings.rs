use erosion::rings::stitch_rings;

#[test]
fn stitch_small_band() {
    let mut indices = vec![9u32];
    stitch_rings([0, 2], [3, 6], &vec![0, 1, 1, 2], &mut indices);
    assert_eq!(
        indices,
        vec![9, 3, 4, 0, 4, 5, 1, 4, 0, 1, 5, 6, 1, 6, 3, 2, 6, 1, 2, 3, 2, 0]
    );
}

#[test]
fn stitch_rings_of_equal_size() {
    let mut indices = Vec::new();
    stitch_rings([0, 2], [3, 5], &vec![0, 1, 2], &mut indices);
    assert_eq!(
        indices,
        vec![3, 4, 0, 4, 5, 1, 4, 0, 1, 5, 3, 2, 5, 1, 2, 3, 2, 0]
    );
}

#[test]
fn stitch_fans_wind_once_round_the_inner_ring() {
    // inner ring 10..=14 (5 vertices), outer ring 20..=23 (4 vertices)
    let nearest = vec![12, 14, 11, 12];
    let mut indices = Vec::new();
    stitch_rings([10, 14], [20, 23], &nearest, &mut indices);
    assert_eq!(indices.len() % 3, 0);
    let triangles = indices.len() / 3;
    // one triangle per outer edge, and fans that go round the inner ring
    assert_eq!((triangles - 4) % 5, 0);
    assert_eq!(triangles, 4 + 5);
    assert!(indices
        .iter()
        .all(|&v| (10..=14).contains(&v) || (20..=23).contains(&v)));
}

#[test]
fn stitch_all_edges_near_one_vertex() {
    let mut indices = Vec::new();
    stitch_rings([0, 3], [4, 6], &vec![2, 2, 2], &mut indices);
    assert_eq!(indices, vec![4, 5, 2, 5, 6, 2, 6, 4, 2]);
}
