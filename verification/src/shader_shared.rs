//! Bind-group slots shared by the shaders and the indirect draw record.
use vstd::prelude::*;

verus! {

/// Our shared shader includes expect certain bind groups to be in certain spots.
/// These are not unique because we need to stay under four groups and re-use heavily.
#[derive(Clone, Copy, PartialEq, Eq, Debug, Structural)]
pub enum Group {
    Globals,
    Atmosphere,
    Stars,
    TerrainDisplaceMesh,
    TerrainDisplaceTileSet,
    TerrainAccumulateCommon,
    TerrainAccumulateTileSet,
    TerrainComposite,
    Ui,
    OffScreenUi,
    OffScreenWorld,
}

/// The bind group slot that the shaders expect for each group.
pub open spec fn group_slot(g: Group) -> u32 {
    match g {
        Group::Atmosphere => 1,
        Group::Globals => 0,
        Group::Stars => 2,
        Group::TerrainDisplaceMesh => 0,
        Group::TerrainDisplaceTileSet => 1,
        Group::TerrainAccumulateCommon => 1,
        Group::TerrainAccumulateTileSet => 2,
        Group::TerrainComposite => 3,
        Group::Ui => 1,
        Group::OffScreenUi => 1,
        Group::OffScreenWorld => 2,
    }
}

impl Group {
    /// The bind group index of this group.
    pub fn index(self) -> (r: u32)
        ensures
            r == group_slot(self),
            r < 4,
    {
        match self {
            Self::Atmosphere => 1,
            Self::Globals => 0,
            Self::Stars => 2,
            Self::TerrainDisplaceMesh => 0,
            Self::TerrainDisplaceTileSet => 1,
            Self::TerrainAccumulateCommon => 1,
            Self::TerrainAccumulateTileSet => 2,
            Self::TerrainComposite => 3,
            Self::Ui => 1,
            Self::OffScreenUi => 1,
            Self::OffScreenWorld => 2,
        }
    }
}

/// As per the documentation on draw_indexed_indirect.
#[derive(Copy, Clone, Default, Debug)]
pub struct DrawIndexedIndirect {
    /// The number of vertices to draw.
    pub index_count: u32,
    /// The number of instances to draw.
    pub instance_count: u32,
    /// The base index within the index buffer.
    pub base_index: u32,
    /// The value added to the vertex index before indexing into the vertex buffer.
    pub vertex_offset: i32,
    /// The instance ID of the first instance to draw.
    pub base_instance: u32,
}

} // verus!
