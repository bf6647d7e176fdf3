//! Verified core logic of the wgpu buffer libraries: atlas layout, terrain tile
//! bookkeeping, layer-pack framing and subdivision arithmetic.
pub mod shader_shared;
pub mod tile;
pub mod atlas;
pub mod quad_tree;
pub mod tile_cache;
pub mod layer_pack;
pub mod subdivision;
pub mod tile_decode;
pub mod tile_index;
pub mod font;
pub mod frame;
