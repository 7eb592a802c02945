//! Assembling one terrain chunk from its heightfield.
//!
//! The full per-chunk pipeline — error map aggregation followed by adaptive
//! mesh extraction — plus the deterministic world placement of the chunk:
//! its coordinate scaled by the chunk's world size, with the depth axis
//! negated to match the chunk grid of [`crate::streaming`].

use vstd::prelude::*;

use crate::TerrainError;
use crate::valid_grid_size;
use crate::errormap::error_map_spec;
use crate::errormap::lemma_em_from_bounded;
use crate::mesh::MeshData;
use crate::mesh::mesh_pinned;
use crate::rtin::Rtin;
use crate::streaming::ChunkCoord;

verus! {

/// The finished error map, as the executable error values.
pub open spec fn error_map_u64(terrain: Seq<i32>, g: int, n_tri: int, n_par: int) -> Seq<u64> {
    Seq::new((g * g) as nat, |ci: int| error_map_spec(terrain, g, n_tri, n_par)[ci] as u64)
}

/// One terrain tile, placed in the world and carrying its mesh.
pub struct Chunk {
    /// Position in the chunk grid.
    pub coordinate: ChunkCoord,
    /// World-space position: `coordinate * chunk_size`, depth negated.
    pub position_x: i64,
    pub position_y: i64,
    pub position_z: i64,
    /// The extracted mesh.
    pub mesh: MeshData,
}

/// Runs the whole per-chunk pipeline on a heightfield: aggregate the error
/// map, extract the mesh under `max_error`, and place the chunk at
/// `coordinate * chunk_size`.
pub fn build_chunk(
    rtin: &Rtin,
    coordinate: ChunkCoord,
    terrain: &Vec<i32>,
    max_error: u64,
    chunk_size: i64,
) -> (r: Result<Chunk, TerrainError>)
    requires
        rtin.wf(),
        1 <= chunk_size <= 0x8000_0000,
        -1000000 <= coordinate.x <= 1000000,
        -1000000 <= coordinate.y <= 1000000,
    ensures
        match r {
            Ok(ch) => {
                &&& terrain@.len() == rtin.grid_size * rtin.grid_size
                &&& ch.coordinate == coordinate
                &&& ch.position_x == coordinate.x * chunk_size
                &&& ch.position_y == 0
                &&& ch.position_z == -coordinate.y * chunk_size
                &&& mesh_pinned(
                    ch.mesh,
                    terrain@,
                    rtin.grid_size as int,
                    error_map_u64(
                        terrain@,
                        rtin.grid_size as int,
                        rtin.spec_num_triangles(),
                        rtin.spec_num_parent_triangles(),
                    ),
                    max_error,
                )
            },
            Err(e) => {
                &&& e == TerrainError::TerrainSizeMismatch
                &&& terrain@.len() != rtin.grid_size * rtin.grid_size
            },
        },
{
    let ghost g = rtin.grid_size as int;
    let ghost n_tri = rtin.spec_num_triangles();
    let ghost n_par = rtin.spec_num_parent_triangles();
    let tile = match rtin.create_tile(terrain) {
        Ok(tile) => tile,
        Err(e) => {
            return Err(e);
        },
    };
    proof {
        lemma_em_from_bounded(terrain@, g, n_tri, n_par, 0);
        assert(tile.errors@ =~= error_map_u64(terrain@, g, n_tri, n_par));
    }
    let mesh = tile.generate_mesh_data(max_error);
    assert(-0x8000_0000_0000_0000 < coordinate.x as i64 * chunk_size < 0x7fff_ffff_ffff_ffff
        && -0x8000_0000_0000_0000 < -(coordinate.y as i64) * chunk_size
            < 0x7fff_ffff_ffff_ffff) by (nonlinear_arith)
        requires
            -1000000 <= coordinate.x <= 1000000,
            -1000000 <= coordinate.y <= 1000000,
            1 <= chunk_size <= 0x8000_0000,
    ;
    let px = coordinate.x as i64 * chunk_size;
    let pz = -(coordinate.y as i64) * chunk_size;
    Ok(Chunk { coordinate, position_x: px, position_y: 0, position_z: pz, mesh })
}


/// Per-chunk generation front end: one table, one chunk world size.
///
/// The heightfield for a coordinate comes from the caller — sampling noise
/// is the host's business — and everything from the error map to the placed
/// mesh happens here.
pub struct TerrainGenerator {
    /// The shared triangle index table.
    pub rtin: Rtin,
    /// Side length of one chunk in world units; also the tile side.
    pub chunk_size: usize,
}

impl TerrainGenerator {
    pub open spec fn wf(&self) -> bool {
        &&& self.rtin.wf()
        &&& self.chunk_size + 1 == self.rtin.grid_size
    }

    /// Sets up generation for tiles of `chunk_size` cells, which must be a
    /// power of two no larger than the supported maximum.
    pub fn new(chunk_size: usize) -> (r: Result<TerrainGenerator, TerrainError>)
        ensures
            match r {
                Ok(tg) => {
                    &&& tg.wf()
                    &&& tg.chunk_size == chunk_size
                    &&& valid_grid_size(chunk_size + 1)
                },
                Err(e) => {
                    &&& e == TerrainError::InvalidGridSize
                    &&& !valid_grid_size(chunk_size + 1)
                },
            },
    {
        if chunk_size >= crate::MAX_GRID_SIZE {
            return Err(TerrainError::InvalidGridSize);
        }
        let rtin = match Rtin::new(chunk_size + 1) {
            Ok(rtin) => rtin,
            Err(e) => {
                return Err(e);
            },
        };
        Ok(TerrainGenerator { rtin, chunk_size })
    }

    /// Generates the chunk at `coordinate` from its heightfield, extracted
    /// under `max_error` (in half height units).
    pub fn generate_terrain_chunk(
        &self,
        coordinate: ChunkCoord,
        terrain: &Vec<i32>,
        max_error: u64,
    ) -> (r: Result<Chunk, TerrainError>)
        requires
            self.wf(),
            -1000000 <= coordinate.x <= 1000000,
            -1000000 <= coordinate.y <= 1000000,
        ensures
            match r {
                Ok(ch) => {
                    &&& terrain@.len() == self.rtin.grid_size * self.rtin.grid_size
                    &&& ch.coordinate == coordinate
                    &&& ch.position_x == coordinate.x * self.chunk_size
                    &&& ch.position_y == 0
                    &&& ch.position_z == -coordinate.y * self.chunk_size
                    &&& mesh_pinned(
                        ch.mesh,
                        terrain@,
                        self.rtin.grid_size as int,
                        error_map_u64(
                            terrain@,
                            self.rtin.grid_size as int,
                            self.rtin.spec_num_triangles(),
                            self.rtin.spec_num_parent_triangles(),
                        ),
                        max_error,
                    )
                },
                Err(e) => {
                    &&& e == TerrainError::TerrainSizeMismatch
                    &&& terrain@.len() != self.rtin.grid_size * self.rtin.grid_size
                },
            },
    {
        build_chunk(&self.rtin, coordinate, terrain, max_error, self.chunk_size as i64)
    }
}

} // verus!
