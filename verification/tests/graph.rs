use device_store::device::IoTDevice;
use device_store::graph::InternetOfThings;
use std::collections::HashSet;
use std::iter::FromIterator;

fn new_device_with_id_path(id: u64, path: &str) -> IoTDevice {
    IoTDevice::new(id, format!("My address is {}", id), path.to_string())
}

fn new_device_with_id(id: u64) -> IoTDevice {
    new_device_with_id_path(id, "")
}

fn build_graph(g: InternetOfThings, items: &Vec<IoTDevice>) -> InternetOfThings {
    let mut g = g;

    g.set_nodes(items.iter().map(|n| n.numerical_id.clone()).collect());
    g.set_edges(
        items[0].numerical_id.clone(),
        vec![
            (1, items[1].numerical_id.clone()),
            (1, items[2].numerical_id.clone()),
            (1, items[3].numerical_id.clone()),
            (10, items[9].numerical_id.clone()),
        ],
    );

    g.set_edges(
        items[1].numerical_id.clone(),
        vec![(1, items[0].numerical_id.clone())],
    );
    g.set_edges(
        items[2].numerical_id.clone(),
        vec![(1, items[0].numerical_id.clone())],
    );
    g.set_edges(
        items[3].numerical_id.clone(),
        vec![
            (1, items[0].numerical_id.clone()),
            (1, items[4].numerical_id.clone()),
        ],
    );
    g.set_edges(
        items[4].numerical_id.clone(),
        vec![
            (1, items[3].numerical_id.clone()),
            (1, items[5].numerical_id.clone()),
        ],
    );
    g.set_edges(
        items[5].numerical_id.clone(),
        vec![
            (1, items[4].numerical_id.clone()),
            (1, items[6].numerical_id.clone()),
        ],
    );
    g.set_edges(
        items[6].numerical_id.clone(),
        vec![
            (1, items[9].numerical_id.clone()),
            (1, items[5].numerical_id.clone()),
        ],
    );
    g.set_edges(
        items[7].numerical_id.clone(),
        vec![(1, items[9].numerical_id.clone())],
    );
    g.set_edges(
        items[8].numerical_id.clone(),
        vec![(1, items[9].numerical_id.clone())],
    );
    g.set_edges(
        items[9].numerical_id.clone(),
        vec![
            (1, items[8].numerical_id.clone()),
            (1, items[7].numerical_id.clone()),
            (1, items[6].numerical_id.clone()),
            (10, items[0].numerical_id.clone()),
        ],
    );
    g
}

#[test]
fn graph_insert_edges() {
    let len = 10;
    let items: Vec<IoTDevice> = (0..len).map(new_device_with_id).collect();

    let g = build_graph(InternetOfThings::new(), &items);

    assert_eq!(g.edges(), 20);
    assert_eq!(g.nodes(), len as usize);
}

#[test]
fn graph_neighbors() {
    let len = 10;
    let items: Vec<IoTDevice> = (0..len).map(new_device_with_id).collect();

    let g = build_graph(InternetOfThings::new(), &items);

    assert_eq!(g.edges(), 20);
    assert_eq!(g.nodes(), len as usize);

    assert_eq!(
        g.connected(items[0].numerical_id, 1),
        Some(HashSet::from_iter(
            vec![
                items[1].numerical_id,
                items[2].numerical_id,
                items[3].numerical_id,
                items[9].numerical_id,
            ]
            .into_iter()
        ))
    )
}

#[test]
fn graph_empty() {
    let g = InternetOfThings::new();
    assert_eq!(g.nodes(), 0);
    assert_eq!(g.edges(), 0);
    assert_eq!(g.get_node_index(1), None);
    assert_eq!(g.connected(1, 3), None);
}

#[test]
fn graph_set_nodes_drops_all_edges() {
    let items: Vec<IoTDevice> = (0..10).map(new_device_with_id).collect();
    let mut g = build_graph(InternetOfThings::new(), &items);
    g.set_nodes(vec![7, 8, 9]);
    assert_eq!(g.nodes(), 3);
    assert_eq!(g.edges(), 0);
    assert_eq!(g.get_node_index(7), Some(0));
    assert_eq!(g.get_node_index(9), Some(2));
    assert_eq!(g.get_node_index(0), None);
    assert_eq!(g.connected(7, 5), Some(HashSet::new()));
}

#[test]
fn graph_set_edges_keeps_only_edges_to_nodes() {
    let mut g = InternetOfThings::new();
    g.set_nodes(vec![1, 2, 3]);
    g.set_edges(1, vec![(5, 2), (6, 42), (7, 3)]);
    assert_eq!(g.edges(), 2);
    assert_eq!(g.connected(1, 1), Some(HashSet::from_iter(vec![2, 3].into_iter())));
    // replaced, not added to
    g.set_edges(1, vec![(1, 3)]);
    assert_eq!(g.edges(), 1);
    assert_eq!(g.connected(1, 1), Some(HashSet::from_iter(vec![3].into_iter())));
}

#[test]
fn graph_set_edges_makes_a_node_for_a_new_key() {
    let mut g = InternetOfThings::new();
    g.set_nodes(vec![1, 2]);
    // the edge to the new node itself is not kept: the node is not there yet
    g.set_edges(9, vec![(1, 1), (1, 9), (1, 2)]);
    assert_eq!(g.nodes(), 3);
    assert_eq!(g.get_node_index(9), Some(2));
    assert_eq!(g.edges(), 2);
    assert_eq!(g.connected(9, 1), Some(HashSet::from_iter(vec![1, 2].into_iter())));
    assert_eq!(g.connected(1, 4), Some(HashSet::new()));
}

#[test]
fn graph_connected_by_degree() {
    let items: Vec<IoTDevice> = (0..10).map(new_device_with_id).collect();
    let g = build_graph(InternetOfThings::new(), &items);
    assert_eq!(g.connected(0, 0), Some(HashSet::new()));
    assert_eq!(g.connected(99, 2), None);
    // two edges from node 1: to 0, and on to 1, 2, 3, 9
    assert_eq!(
        g.connected(1, 2),
        Some(HashSet::from_iter(vec![0, 1, 2, 3, 9].into_iter()))
    );
    assert_eq!(
        g.connected(4, 2),
        Some(HashSet::from_iter(vec![3, 5, 0, 4, 6].into_iter()))
    );
    // the indices that the walk is made of
    assert_eq!(
        g.connected_r(7, 2),
        HashSet::from_iter(vec![9usize, 8, 7, 6, 0].into_iter())
    );
    assert_eq!(
        g.connected(0, 9),
        Some(HashSet::from_iter((0..10u64).into_iter()))
    );
}

#[test]
fn graph_first_of_equal_keys() {
    let mut g = InternetOfThings::new();
    g.set_nodes(vec![4, 5, 4]);
    assert_eq!(g.get_node_index(4), Some(0));
    g.set_edges(5, vec![(1, 4)]);
    assert_eq!(g.connected_r(1, 1), HashSet::from_iter(vec![0usize].into_iter()));
}

#[test]
fn graph_find_shortest_path() {
    let len = 10;
    let items: Vec<IoTDevice> = (0..len).map(new_device_with_id).collect();

    let g = build_graph(InternetOfThings::new(), &items);

    assert_eq!(g.edges(), 20);
    assert_eq!(g.nodes(), len as usize);

    assert_eq!(
        g.shortest_path(items[0].numerical_id, items[9].numerical_id),
        Some((
            5,
            vec![
                items[0].numerical_id,
                items[3].numerical_id,
                items[4].numerical_id,
                items[5].numerical_id,
                items[6].numerical_id,
                items[9].numerical_id
            ]
        ))
    )
}

#[test]
fn graph_shortest_path_between_any_two() {
    let items: Vec<IoTDevice> = (0..10).map(new_device_with_id).collect();
    let g = build_graph(InternetOfThings::new(), &items);
    assert_eq!(g.shortest_path(9, 0), Some((5, vec![9, 6, 5, 4, 3, 0])));
    assert_eq!(g.shortest_path(7, 8), Some((2, vec![7, 9, 8])));
    assert_eq!(g.shortest_path(1, 2), Some((2, vec![1, 0, 2])));
    assert_eq!(g.shortest_path(4, 7), Some((4, vec![4, 5, 6, 9, 7])));
    assert_eq!(g.shortest_path(3, 3), Some((0, vec![3])));
    assert_eq!(g.shortest_path(3, 42), None);
    assert_eq!(g.shortest_path(42, 3), None);
}

#[test]
fn graph_shortest_path_prefers_the_lighter_detour() {
    let mut g = InternetOfThings::new();
    g.set_nodes(vec![10, 20, 30, 40]);
    g.set_edges(10, vec![(7, 40), (1, 20)]);
    g.set_edges(20, vec![(2, 30)]);
    g.set_edges(30, vec![(3, 40)]);
    assert_eq!(g.shortest_path(10, 40), Some((6, vec![10, 20, 30, 40])));
    // a lighter direct edge beside the heavy one
    g.set_edges(10, vec![(7, 40), (1, 20), (5, 40)]);
    assert_eq!(g.shortest_path(10, 40), Some((5, vec![10, 40])));
    // edges lead one way only
    assert_eq!(g.shortest_path(40, 10), None);
    assert_eq!(g.shortest_path(30, 20), None);
}

#[test]
fn graph_shortest_path_needs_a_weight_that_fits() {
    let mut g = InternetOfThings::new();
    g.set_nodes(vec![1, 2, 3]);
    g.set_edges(1, vec![(u32::MAX, 2)]);
    g.set_edges(2, vec![(1, 3)]);
    assert_eq!(g.shortest_path(1, 2), Some((u32::MAX, vec![1, 2])));
    assert_eq!(g.shortest_path(1, 3), None);
    g.set_edges(2, vec![(0, 3)]);
    assert_eq!(g.shortest_path(1, 3), Some((u32::MAX, vec![1, 2, 3])));
}

#[test]
fn graph_shortest_path_over_edges_without_weight() {
    let mut g = InternetOfThings::new();
    g.set_nodes(vec![1, 2, 3]);
    g.set_edges(1, vec![(0, 2)]);
    g.set_edges(2, vec![(0, 1), (0, 3)]);
    g.set_edges(3, vec![(0, 1)]);
    assert_eq!(g.shortest_path(1, 3), Some((0, vec![1, 2, 3])));
    assert_eq!(g.shortest_path(3, 2), Some((0, vec![3, 1, 2])));
}
