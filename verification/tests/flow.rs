use erosion::flow::{attach_node, link_flow_node};

#[test]
fn attach_appends_one_link() {
    let mut edges = Vec::new();
    attach_node(&mut edges, 1, 0);
    assert!(edges.is_empty());
    attach_node(&mut edges, 2, 0);
    attach_node(&mut edges, 3, 1);
    assert_eq!(edges, vec![0, 1, 1, 2]);
}

#[test]
fn first_node_has_no_link() {
    let mut rng = rand::thread_rng();
    let mut edges = Vec::new();
    link_flow_node(&mut edges, 1, &mut rng);
    assert!(edges.is_empty());
}

#[test]
fn second_node_links_to_first() {
    let mut rng = rand::thread_rng();
    let mut edges = Vec::new();
    link_flow_node(&mut edges, 1, &mut rng);
    link_flow_node(&mut edges, 2, &mut rng);
    assert_eq!(edges, vec![0, 1]);
}

#[test]
fn random_flow_is_a_tree() {
    let mut rng = rand::thread_rng();
    let mut edges = Vec::new();
    for node in 1..=40u32 {
        link_flow_node(&mut edges, node, &mut rng);
    }
    assert_eq!(edges.len(), 2 * 39);
    for (j, pair) in edges.chunks(2).enumerate() {
        assert_eq!(pair[1], j as u32 + 1);
        assert!(pair[0] <= j as u32);
    }
}

#[test]
fn random_parents_vary() {
    let mut rng = rand::thread_rng();
    let mut edges = Vec::new();
    for node in 1..=60u32 {
        link_flow_node(&mut edges, node, &mut rng);
    }
    let parents: Vec<u32> = edges.chunks(2).map(|pair| pair[0]).collect();
    assert!(parents.iter().any(|&p| p != 0));
}
