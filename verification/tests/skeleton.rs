use meshwalk::dag::VertexDag;
use meshwalk::mesh::{obj_triangles, FaceCorner, LoadError, MeshData, ObjVertex};
use meshwalk::token::TokenText;
use meshwalk::views::Segment;

fn bits(p: [f32; 3]) -> [u32; 3] {
    [p[0].to_bits(), p[1].to_bits(), p[2].to_bits()]
}

fn corner(position: usize) -> FaceCorner {
    FaceCorner { position, texture: None, normal: None }
}

fn flat(count: usize) -> Vec<[u32; 3]> {
    (0..count).map(|i| bits([i as f32, 0.0, 0.0])).collect()
}

fn mesh_of(count: usize, faces: &[&[usize]]) -> MeshData {
    MeshData {
        positions: flat(count),
        normals: vec![],
        textures: vec![],
        faces: faces.iter().map(|f| f.iter().map(|&p| corner(p)).collect()).collect(),
    }
}

fn triangle() -> MeshData {
    MeshData {
        positions: vec![bits([0.0, 0.0, 0.0]), bits([1.0, 0.0, 0.0]), bits([0.0, 1.0, 0.0])],
        normals: vec![],
        textures: vec![],
        faces: vec![vec![corner(0), corner(1), corner(2)]],
    }
}

#[test]
fn single_triangle_has_three_nodes_and_three_edges() {
    let dag = VertexDag::from_mesh(&triangle()).unwrap();
    assert_eq!(dag.vertex_count(), 3);
    assert_eq!(dag.edge_count(), 3);
    assert_eq!(dag.mesh_edges(), vec![(0, 1), (1, 0), (1, 2), (2, 1), (2, 0), (0, 2)]);
}

#[test]
fn single_triangle_orients_into_one_chain() {
    let dag = VertexDag::from_mesh(&triangle()).unwrap();
    assert_eq!(dag.dag_edges(), vec![(0, 2), (2, 1)]);
    assert_eq!(dag.components(), vec![0]);
    assert_eq!(dag.get_paths(), vec![vec![0, 2, 1]]);
}

#[test]
fn single_triangle_path_has_two_steps_with_their_positions() {
    let dag = VertexDag::from_mesh(&triangle()).unwrap();
    let path = dag.get_paths().remove(0);
    let steps = dag.path_segments(&path).unwrap();
    assert_eq!(
        steps,
        vec![
            Segment { from: bits([0.0, 0.0, 0.0]), to: bits([0.0, 1.0, 0.0]) },
            Segment { from: bits([0.0, 1.0, 0.0]), to: bits([1.0, 0.0, 0.0]) },
        ]
    );
}

#[test]
fn longest_path_starts_anywhere_on_the_chain() {
    let dag = VertexDag::from_mesh(&triangle()).unwrap();
    assert_eq!(dag.longest_path(0), vec![0, 2, 1]);
    assert_eq!(dag.longest_path(2), vec![2, 1]);
}

#[test]
fn a_node_without_exit_has_the_empty_path() {
    let dag = VertexDag::from_mesh(&triangle()).unwrap();
    assert_eq!(dag.longest_path(1), Vec::<u32>::new());
    assert_eq!(dag.longest_path(17), Vec::<u32>::new());
}

#[test]
fn shared_side_is_linked_once() {
    let dag = VertexDag::from_mesh(&mesh_of(4, &[&[0, 1, 2], &[0, 2, 3]])).unwrap();
    assert_eq!(dag.edge_count(), 5);
    assert_eq!(
        dag.mesh_edges(),
        vec![(0, 1), (1, 0), (1, 2), (2, 1), (2, 0), (0, 2), (2, 3), (3, 2), (3, 0), (0, 3)]
    );
    assert_eq!(dag.mesh_neighbors(0), vec![3, 2, 1]);
    assert_eq!(dag.dag_edges(), vec![(0, 3), (3, 2), (2, 1)]);
    assert_eq!(dag.get_paths(), vec![vec![0, 3, 2, 1]]);
}

#[test]
fn the_neighbour_nearest_to_the_root_is_chosen() {
    // sides 1-3, 1-2, 3-0, 0-1: from 1 the neighbours are listed 0, 2, 3;
    // 2 is two sides from the root, 3 is one
    let dag = VertexDag::from_mesh(&mesh_of(4, &[&[1, 3], &[1, 2], &[3, 0], &[0, 1]])).unwrap();
    assert_eq!(dag.mesh_neighbors(1), vec![0, 2, 3]);
    assert_eq!(dag.mesh_distance(2, 0), Some(2));
    assert_eq!(dag.mesh_distance(3, 0), Some(1));
    assert_eq!(dag.mesh_distance(0, 0), Some(0));
    assert_eq!(dag.dag_edges(), vec![(0, 1), (1, 3)]);
    assert_eq!(dag.components(), vec![0]);
    assert_eq!(dag.get_paths(), vec![vec![0, 1, 3]]);
}

#[test]
fn unconnected_nodes_have_no_distance() {
    let dag = VertexDag::from_mesh(&mesh_of(4, &[&[0, 1], &[2, 3]])).unwrap();
    assert_eq!(dag.mesh_distance(0, 2), None);
    assert_eq!(dag.mesh_distance(2, 3), Some(1));
}

#[test]
fn isolated_vertices_yield_no_path() {
    let dag = VertexDag::from_mesh(&mesh_of(3, &[])).unwrap();
    assert_eq!(dag.edge_count(), 0);
    assert_eq!(dag.dag_edges(), vec![]);
    assert_eq!(dag.components(), Vec::<u32>::new());
    assert_eq!(dag.get_paths(), Vec::<Vec<u32>>::new());
}

#[test]
fn paths_come_lowest_start_first() {
    let mut mesh = mesh_of(4, &[&[0, 1], &[2, 3]]);
    mesh.positions[0] = bits([0.0, 5.0, 0.0]);
    mesh.positions[2] = bits([0.0, -1.0, 0.0]);
    let dag = VertexDag::from_mesh(&mesh).unwrap();
    assert_eq!(dag.components(), vec![0, 2]);
    assert_eq!(dag.ranked_roots(), vec![2, 0]);
    assert_eq!(dag.get_paths(), vec![vec![2, 3], vec![0, 1]]);
}

#[test]
fn equal_heights_rank_by_index() {
    let dag = VertexDag::from_mesh(&mesh_of(6, &[&[4, 5], &[2, 3], &[0, 1]])).unwrap();
    assert_eq!(dag.ranked_roots(), vec![0, 2, 4]);
    assert_eq!(dag.get_paths(), vec![vec![0, 1], vec![2, 3], vec![4, 5]]);
}

#[test]
fn no_arc_closes_a_cycle() {
    let dag = VertexDag::from_mesh(&mesh_of(
        6,
        &[&[0, 1, 2], &[0, 2, 3], &[3, 2, 4], &[4, 2, 5], &[5, 2, 1]],
    ))
    .unwrap();
    let arcs = dag.dag_edges();
    assert!(!arcs.is_empty());
    for &(u, v) in &arcs {
        assert!(dag.leads_to(u, v));
        assert!(!dag.leads_to(v, u));
    }
}

#[test]
fn every_path_node_is_reached_from_its_root_one_arc_deeper_each() {
    let dag = VertexDag::from_mesh(&mesh_of(
        6,
        &[&[0, 1, 2], &[0, 2, 3], &[3, 2, 4], &[4, 2, 5], &[5, 2, 1]],
    ))
    .unwrap();
    let paths = dag.get_paths();
    assert!(!paths.is_empty());
    for path in &paths {
        for (depth, &node) in path.iter().enumerate() {
            assert!(dag.leads_to(path[0], node));
            assert_eq!(dag.longest_path(node).len(), if depth + 1 == path.len() {
                0
            } else {
                path.len() - depth
            });
        }
    }
}

#[test]
fn paths_and_untouched_nodes_make_up_all_nodes() {
    let dag = VertexDag::from_mesh(&mesh_of(
        8,
        &[&[0, 1, 2], &[0, 2, 3], &[3, 2, 4], &[6, 7]],
    ))
    .unwrap();
    let arcs = dag.dag_edges();
    let paths = dag.get_paths();
    for node in 0..8u32 {
        let on_path = paths.iter().any(|p| p.contains(&node));
        let on_arc = arcs.iter().any(|&(u, v)| u == node || v == node);
        assert_eq!(on_path, on_arc);
    }
    assert!(!arcs.iter().any(|&(u, v)| u == 5 || v == 5));
}

#[test]
fn orienting_twice_changes_nothing() {
    let mut dag = VertexDag::from_mesh(&mesh_of(4, &[&[0, 1, 2], &[0, 2, 3]])).unwrap();
    let before = dag.dag_edges();
    dag.add_dag_edges();
    assert_eq!(dag.dag_edges(), before);
    assert_eq!(dag.components(), vec![0]);
}

#[test]
fn a_fresh_skeleton_has_nothing_to_orient() {
    let vertex = ObjVertex { position: [0, 0, 0], normal: [0, 0, 0], texture: [0, 0] };
    let mut dag = VertexDag::new(vec![vertex; 3]);
    dag.add_dag_edges();
    assert_eq!(dag.vertex_count(), 3);
    assert_eq!(dag.dag_edges(), vec![]);
    assert_eq!(dag.mesh_edges(), vec![]);
}

#[test]
fn a_one_corner_face_links_its_vertex_to_itself() {
    let dag = VertexDag::from_mesh(&mesh_of(2, &[&[1]])).unwrap();
    assert_eq!(dag.mesh_edges(), vec![(1, 1)]);
    assert_eq!(dag.edge_count(), 1);
    assert_eq!(dag.dag_edges(), vec![]);
}

#[test]
fn out_of_range_position_is_refused() {
    let mesh = mesh_of(3, &[&[0, 1, 2], &[0, 1, 3]]);
    assert_eq!(VertexDag::from_mesh(&mesh).err(), Some(LoadError::PositionOutOfRange));
}

#[test]
fn out_of_range_normal_is_refused() {
    let mut mesh = triangle();
    mesh.faces[0][1].normal = Some(0);
    assert_eq!(VertexDag::from_mesh(&mesh).err(), Some(LoadError::NormalOutOfRange));
}

#[test]
fn out_of_range_texture_is_refused_before_a_normal() {
    let mut mesh = triangle();
    mesh.faces[0][2].normal = Some(4);
    mesh.faces[0][1].texture = Some(1);
    mesh.textures.push([0, 0]);
    assert_eq!(VertexDag::from_mesh(&mesh).err(), Some(LoadError::TextureOutOfRange));
}

#[test]
fn vertex_table_keeps_positions() {
    let dag = VertexDag::from_mesh(&triangle()).unwrap();
    let table: &Vec<ObjVertex> = dag.vertices();
    assert_eq!(table.len(), 3);
    assert_eq!(table[1].position, bits([1.0, 0.0, 0.0]));
    assert_eq!(table[1].normal, [0, 0, 0]);
    assert_eq!(table[1].texture, [0, 0]);
}

#[test]
fn the_first_corner_that_names_a_vertex_fills_it() {
    let mut mesh = mesh_of(3, &[&[0, 1, 2], &[2, 1, 0]]);
    mesh.normals = vec![bits([0.0, 0.0, 1.0]), bits([0.0, 1.0, 0.0])];
    mesh.textures = vec![[7, 8]];
    mesh.faces[0][0].normal = Some(1);
    mesh.faces[0][0].texture = Some(0);
    mesh.faces[1][2].normal = Some(0);
    mesh.faces[1][1].normal = Some(0);
    let dag = VertexDag::from_mesh(&mesh).unwrap();
    let table = dag.vertices();
    assert_eq!(table[0].normal, bits([0.0, 1.0, 0.0]));
    assert_eq!(table[0].texture, [7, 8]);
    assert_eq!(table[1].normal, [0, 0, 0]);
    assert_eq!(table[2].texture, [0, 0]);
}

#[test]
fn a_vertex_that_no_face_names_stays_blank() {
    let mut mesh = mesh_of(4, &[&[0, 1, 2]]);
    mesh.positions[3] = bits([9.0, 9.0, 9.0]);
    let dag = VertexDag::from_mesh(&mesh).unwrap();
    assert_eq!(dag.vertices()[3], ObjVertex::default());
    assert_eq!(dag.vertices()[3].position, [0, 0, 0]);
}

#[test]
fn path_segments_refuse_unknown_nodes() {
    let dag = VertexDag::from_mesh(&triangle()).unwrap();
    assert_eq!(dag.path_segments(&vec![0, 3]), None);
    assert_eq!(dag.path_segments(&vec![]), Some(vec![]));
    assert_eq!(dag.path_segments(&vec![2]), Some(vec![]));
}

#[test]
fn triangles_list_the_position_indices() {
    let mesh = mesh_of(4, &[&[0, 1, 2], &[0, 2, 3]]);
    assert_eq!(obj_triangles(&mesh), vec![vec![0, 1, 2], vec![0, 2, 3]]);
}

fn polar_offset(step: &Segment) -> [f32; 3] {
    let from = step.from.map(f32::from_bits);
    let to = step.to.map(f32::from_bits);
    let (x, y, z) = (to[0] - from[0], to[1] - from[1], to[2] - from[2]);
    let r = (x * x + y * y + z * z).sqrt();
    if r == 0.0 {
        [0.0, 0.0, 0.0]
    } else {
        [r, y.atan2(x), z / r]
    }
}

#[test]
fn single_triangle_gives_two_tokens_that_read_back() {
    let dag = VertexDag::from_mesh(&triangle()).unwrap();
    let path = dag.get_paths().remove(0);
    let steps = dag.path_segments(&path).unwrap();
    let tokens: Vec<Vec<u8>> = steps
        .iter()
        .map(|step| {
            let [r, long, lat] = polar_offset(step);
            TokenText {
                radius: format!("{:.16}", r).into_bytes(),
                longitude: format!("{:.16}", long).into_bytes(),
                latitude: format!("{:.16}", lat).into_bytes(),
            }
            .to_text()
        })
        .collect();
    assert_eq!(tokens.len(), 2);
    // 0 -> 2 is the offset (0, 1, 0); 2 -> 1 is the offset (1, -1, 0)
    let expected = [
        [1.0f32, std::f32::consts::FRAC_PI_2, 0.0],
        [std::f32::consts::SQRT_2, -std::f32::consts::FRAC_PI_4, 0.0],
    ];
    for (token, want) in tokens.iter().zip(expected) {
        let read = TokenText::parse(token).unwrap();
        let got = [read.radius, read.longitude, read.latitude]
            .map(|field| String::from_utf8(field).unwrap().parse::<f32>().unwrap());
        for (g, w) in got.iter().zip(want) {
            assert!((g - w).abs() <= 1e-6);
        }
    }
}
