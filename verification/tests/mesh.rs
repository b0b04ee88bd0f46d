use rustracer::mesh::unroll_mesh;

#[test]
fn unrolls_one_vertex_per_index() {
    let positions = vec![0.0f32, 0.0, 0.0, 1.0, 0.0, 0.0, 0.0, 1.0, 0.0];
    let mut vertices = Vec::new();
    let mut indices = Vec::new();
    unroll_mesh(&mut vertices, &mut indices, &positions, &vec![0, 1, 2, 2, 1, 0]);
    assert_eq!(vertices.len(), 6);
    assert_eq!(vertices[0], (0.0, 0.0, 0.0));
    assert_eq!(vertices[2], (0.0, 1.0, 0.0));
    assert_eq!(vertices[4], (1.0, 0.0, 0.0));
    assert_eq!(indices, vec![0, 1, 2, 3, 4, 5]);
}

#[test]
fn later_meshes_continue_the_numbering() {
    let positions = vec![1u8, 2, 3, 4, 5, 6];
    let mut vertices = vec![(9, 9, 9)];
    let mut indices = vec![0];
    unroll_mesh(&mut vertices, &mut indices, &positions, &vec![1, 0]);
    assert_eq!(vertices, vec![(9, 9, 9), (4, 5, 6), (1, 2, 3)]);
    assert_eq!(indices, vec![0, 1, 2]);
}
