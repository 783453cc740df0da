use vleue_navigator::buffers::{
    fan_triangle_indices, polygon_edges, triangles_from_indices, undirected_edge,
    wireframe_indices,
};

#[test]
fn fan_of_a_quad_has_two_triangles_from_its_first_vertex() {
    let polygons = vec![vec![0u32, 1, 2, 3]];
    assert_eq!(fan_triangle_indices(&polygons), vec![0, 1, 2, 0, 2, 3]);
}

#[test]
fn fan_of_a_pentagon_and_a_triangle() {
    let polygons = vec![vec![4u32, 5, 6, 7, 8], vec![1u32, 2, 3]];
    assert_eq!(
        fan_triangle_indices(&polygons),
        vec![4, 5, 6, 4, 6, 7, 4, 7, 8, 1, 2, 3]
    );
}

#[test]
fn fan_of_degenerate_polygons_is_empty() {
    let none: Vec<Vec<u32>> = vec![];
    assert_eq!(fan_triangle_indices(&none), Vec::<u32>::new());
    let polygons = vec![vec![], vec![3u32], vec![1u32, 2]];
    assert_eq!(fan_triangle_indices(&polygons), Vec::<u32>::new());
}

#[test]
fn undirected_edge_puts_smaller_index_first() {
    assert_eq!(undirected_edge((3, 1)), (1, 3));
    assert_eq!(undirected_edge((1, 3)), (1, 3));
    assert_eq!(undirected_edge((2, 2)), (2, 2));
}

#[test]
fn polygon_edges_close_each_ring() {
    let polygons = vec![vec![0u32, 1, 2], vec![5u32, 6]];
    assert_eq!(
        polygon_edges(&polygons),
        vec![(0, 1), (1, 2), (2, 0), (5, 6), (6, 5)]
    );
}

#[test]
fn wireframe_keeps_a_shared_edge_once() {
    let polygons = vec![vec![0u32, 1, 2], vec![2u32, 1, 3]];
    assert_eq!(
        wireframe_indices(&polygons),
        vec![0, 1, 1, 2, 2, 0, 1, 3, 3, 2]
    );
}

#[test]
fn wireframe_of_a_split_square_has_five_edges() {
    let polygons = vec![vec![0u32, 1, 3], vec![0u32, 3, 2]];
    let lines = wireframe_indices(&polygons);
    assert_eq!(lines, vec![0, 1, 1, 3, 3, 0, 3, 2, 2, 0]);
    let mut keys: Vec<(u32, u32)> = lines
        .chunks(2)
        .map(|e| undirected_edge((e[0], e[1])))
        .collect();
    keys.sort();
    keys.dedup();
    assert_eq!(keys.len(), 5);
}

#[test]
fn wireframe_of_nothing_is_empty() {
    let none: Vec<Vec<u32>> = vec![];
    assert_eq!(wireframe_indices(&none), Vec::<u32>::new());
}

#[test]
fn triangles_group_consecutive_triples() {
    assert_eq!(
        triangles_from_indices(&vec![0, 1, 3, 0, 3, 2]),
        vec![(0, 1, 3), (0, 3, 2)]
    );
    assert_eq!(triangles_from_indices(&vec![]), vec![]);
}

#[test]
fn fanned_triangles_regroup_to_the_same_triangles() {
    let polygons = vec![vec![0u32, 1, 4], vec![1u32, 2, 5], vec![5u32, 2, 3]];
    let indices = fan_triangle_indices(&polygons);
    assert_eq!(
        triangles_from_indices(&indices),
        vec![(0, 1, 4), (1, 2, 5), (5, 2, 3)]
    );
}
