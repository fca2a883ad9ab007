use erosion::plan::RingPlan;

#[test]
fn new_plan_counts_planes() {
    let plan = RingPlan::new(17);
    assert_eq!(plan.planes_number, 17);
    assert_eq!(plan.outer_planes, 2);
    assert_eq!(plan.total_planes, 19);
    assert_eq!(plan.previous_plane, [0, 0, 0]);
    assert_eq!(plan.points_of_plane, 3);
    assert_eq!(plan.next_plane, 0);
    assert_eq!(plan.normal_plane(), 1);
    assert_eq!(plan.ring(), [0, 2]);
}

#[test]
fn random_plan_draws_from_range() {
    let mut rng = rand::thread_rng();
    for _ in 0..50 {
        let plan = RingPlan::new_random(&mut rng);
        assert!((16..32).contains(&plan.planes_number));
        assert_eq!(plan.outer_planes, plan.planes_number / 8);
        assert_eq!(plan.total_planes, plan.planes_number + plan.outer_planes);
    }
}

#[test]
fn first_ring_is_one_triangle() {
    let plan = RingPlan::new(16);
    let mut indices = Vec::new();
    plan.connect_ring(&Vec::new(), &mut indices);
    assert_eq!(indices, vec![0, 1, 2]);
}

#[test]
fn advance_grows_and_shrinks_rings() {
    let mut plan = RingPlan::new(16);
    plan.advance(2);
    assert_eq!(plan.previous_plane, [0, 0, 3]);
    assert_eq!(plan.next_plane, 1);
    assert_eq!(plan.points_of_plane, 5);
    assert_eq!(plan.normal_plane(), 0);
    assert_eq!(plan.previous_ring(), [0, 2]);
    assert_eq!(plan.ring(), [3, 7]);
    plan.advance(2);
    plan.advance(2);
    assert_eq!(plan.points_of_plane, 9);
    assert_eq!(plan.previous_plane, [2, 8, 15]);
    plan.advance(1);
    assert_eq!(plan.points_of_plane, 8);
    assert_eq!(plan.previous_plane, [3, 15, 24]);
}

#[test]
fn second_ring_is_stitched_to_the_first() {
    let mut plan = RingPlan::new(16);
    let mut indices = Vec::new();
    plan.connect_ring(&Vec::new(), &mut indices);
    plan.advance(1);
    // ring of four vertices 3..=6 around the first ring 0..=2
    plan.connect_ring(&vec![0, 1, 1, 2], &mut indices);
    assert_eq!(
        indices,
        vec![0, 1, 2, 3, 4, 0, 4, 5, 1, 4, 0, 1, 5, 6, 1, 6, 3, 2, 6, 1, 2, 3, 2, 0]
    );
}

#[test]
fn last_ring_has_three_points_and_is_closed() {
    // 16 planes between the ends and 2 beyond: 18 planes, numbered 0..=17
    let mut plan = RingPlan::new(16);
    for _ in 0..17 {
        plan.advance(1);
    }
    assert_eq!(plan.previous_plane[0], 16);
    assert_eq!(plan.points_of_plane, 3);
    let end = plan.previous_plane[2] + 3;
    let single = plan.previous_ring();
    let nearest = vec![single[0]; 3];
    let mut indices = Vec::new();
    plan.connect_ring(&nearest, &mut indices);
    assert_eq!(&indices[indices.len() - 3..], &[end - 3, end - 2, end - 1]);
}

#[test]
fn random_rings_stay_between_three_and_ten() {
    let mut rng = rand::thread_rng();
    let mut plan = RingPlan::new_random(&mut rng);
    let total = plan.total_planes;
    let mut vertices = 0;
    for plane in 0..total {
        assert!((3..=10).contains(&plan.points_of_plane));
        assert_eq!(plan.previous_plane[2], vertices);
        assert_eq!(plan.next_plane, plane);
        vertices += plan.points_of_plane;
        plan.advance_random(&mut rng);
    }
}

#[test]
fn random_stone_indices_name_existing_vertices() {
    let mut rng = rand::thread_rng();
    let mut plan = RingPlan::new_random(&mut rng);
    let total = plan.total_planes;
    let mut indices = Vec::new();
    for _ in 0..total {
        let nearest = if plan.previous_plane[2] == 0 {
            Vec::new()
        } else {
            let single = plan.previous_ring();
            let n = plan.points_of_plane as usize;
            (0..n).map(|t| single[0] + (t as u32 * 7) % (single[1] - single[0] + 1)).collect()
        };
        plan.connect_ring(&nearest, &mut indices);
        let vertices = plan.previous_plane[2] + plan.points_of_plane;
        assert_eq!(indices.len() % 3, 0);
        assert!(indices.iter().all(|&v| v < vertices));
        plan.advance_random(&mut rng);
    }
}

#[test]
fn random_plans_differ() {
    let mut rng = rand::thread_rng();
    let first = RingPlan::new_random(&mut rng).planes_number;
    let mut differs = false;
    for _ in 0..500 {
        if RingPlan::new_random(&mut rng).planes_number != first {
            differs = true;
        }
    }
    assert!(differs);
}

#[test]
fn random_ring_changes_take_both_sizes() {
    let mut rng = rand::thread_rng();
    let mut seen = [false; 2];
    for _ in 0..500 {
        let mut plan = RingPlan::new(16);
        plan.advance_random(&mut rng);
        // a ring of three is followed by one of four or five
        assert!(plan.points_of_plane == 4 || plan.points_of_plane == 5);
        seen[(plan.points_of_plane - 4) as usize] = true;
    }
    assert!(seen[0] && seen[1]);
}
