//! Unrolling of indexed triangle meshes into one vertex per index.

use vstd::prelude::*;

verus! {

/// The position stored for vertex `index` in a flat list of coordinates:
/// three consecutive entries from `3 * index` on.
pub open spec fn position_of<P>(positions: Seq<P>, index: int) -> (P, P, P) {
    (positions[3 * index], positions[3 * index + 1], positions[3 * index + 2])
}

/// Appends one vertex per entry of `mesh_indices`, holding the position that
/// entry names in `positions`, and numbers the appended vertices in `indices`
/// by their place in the vertex list (truncated to `u32`).
pub fn unroll_mesh<P: Copy>(
    vertices: &mut Vec<(P, P, P)>,
    indices: &mut Vec<u32>,
    positions: &Vec<P>,
    mesh_indices: &Vec<u32>,
)
    requires
        old(indices).len() == old(vertices).len(),
        old(vertices).len() + mesh_indices.len() <= usize::MAX,
        forall|k: int|
            0 <= k < mesh_indices.len() ==> 3 * #[trigger] mesh_indices[k] + 2 < positions.len()
                && 3 * mesh_indices[k] <= u32::MAX,
    ensures
        final(vertices).len() == old(vertices).len() + mesh_indices.len(),
        final(indices).len() == final(vertices).len(),
        final(vertices)@.subrange(0, old(vertices).len() as int) == old(vertices)@,
        final(indices)@.subrange(0, old(indices).len() as int) == old(indices)@,
        forall|k: int|
            0 <= k < mesh_indices.len() ==> #[trigger] final(vertices)[old(vertices).len() + k]
                == position_of(positions@, mesh_indices[k] as int),
        forall|k: int|
            old(indices).len() <= k < final(indices).len() ==> #[trigger] final(indices)[k] == (k
                % 0x1_0000_0000) as u32,
{
    let ghost start = vertices.len() as int;
    let ghost old_vertices = vertices@;
    let ghost old_indices = indices@;
    let mut k: usize = 0;
    while k < mesh_indices.len()
        invariant
            k <= mesh_indices.len(),
            start + mesh_indices.len() <= usize::MAX,
            vertices.len() == start + k,
            indices.len() == vertices.len(),
            old_vertices.len() == start,
            old_indices.len() == start,
            vertices@.subrange(0, start) == old_vertices,
            indices@.subrange(0, start) == old_indices,
            forall|j: int|
                0 <= j < mesh_indices.len() ==> 3 * #[trigger] mesh_indices[j] + 2 < positions.len()
                    && 3 * mesh_indices[j] <= u32::MAX,
            forall|j: int|
                0 <= j < k ==> #[trigger] vertices[start + j] == position_of(
                    positions@,
                    mesh_indices[j] as int,
                ),
            forall|j: int|
                start <= j < indices.len() ==> #[trigger] indices[j] == (j % 0x1_0000_0000) as u32,
        decreases mesh_indices.len() - k,
    {
        let index = mesh_indices[k];
        let pos_offset = (3 * index) as usize;
        let vertex = (positions[pos_offset], positions[pos_offset + 1], positions[pos_offset + 2]);
        let ghost before_vertices = vertices@;
        let ghost before_indices = indices@;
        vertices.push(vertex);
        let next = indices.len();
        let number = #[verifier::truncate] (next as u32);
        proof {
            let wide = next as u64;
            assert((wide as u32) as u64 == wide % 0x1_0000_0000) by (bit_vector);
            assert(next as u32 == wide as u32) by (bit_vector)
                requires
                    wide == next as u64,
            ;
            assert(vertices@.subrange(0, start) =~= before_vertices.subrange(0, start));
        }
        indices.push(number);
        proof {
            assert(indices@.subrange(0, start) =~= before_indices.subrange(0, start));
        }
        k += 1;
    }
}

} // verus!
