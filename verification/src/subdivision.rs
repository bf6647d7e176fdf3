//! Detail presets and the arithmetic of the GPU patch subdivision: how many vertices a patch
//! holds after each subdivision step and how the work of each step is laid out.
use vstd::prelude::*;
use crate::tile::pow2;

verus! {

/// How much CPU time to spend on the patch tree.
#[derive(Copy, Clone, Debug, PartialEq, Eq, Structural)]
pub enum CpuDetailLevel {
    Low,
    Medium,
    High,
    Ultra,
}

/// Deepest patch-tree level of each CPU preset.
pub open spec fn cpu_max_level(l: CpuDetailLevel) -> usize {
    match l {
        CpuDetailLevel::Low => 8,
        CpuDetailLevel::Medium => 15,
        CpuDetailLevel::High => 16,
        CpuDetailLevel::Ultra => 17,
    }
}

/// Number of patches each CPU preset uploads.
pub open spec fn cpu_patch_count(l: CpuDetailLevel) -> usize {
    match l {
        CpuDetailLevel::Low => 200,
        CpuDetailLevel::Medium => 300,
        CpuDetailLevel::High => 400,
        CpuDetailLevel::Ultra => 500,
    }
}

/// The integer parameters of a CPU preset. (Every preset refines to a target of 150.)
#[derive(Copy, Clone, Debug)]
pub struct CpuDetail {
    pub max_level: usize,
    pub desired_patch_count: usize,
}

impl CpuDetailLevel {
    /// Max level and patch count of this preset.
    pub fn parameters(&self) -> (r: CpuDetail)
        ensures
            r.max_level == cpu_max_level(*self),
            r.desired_patch_count == cpu_patch_count(*self),
    {
        match self {
            Self::Low => CpuDetail { max_level: 8, desired_patch_count: 200 },
            Self::Medium => CpuDetail { max_level: 15, desired_patch_count: 300 },
            Self::High => CpuDetail { max_level: 16, desired_patch_count: 400 },
            Self::Ultra => CpuDetail { max_level: 17, desired_patch_count: 500 },
        }
    }
}

/// Deepest patch-tree level of each CPU preset as the terrain renderer sets them up: the low
/// preset goes deeper than the geometry-only presets.
pub open spec fn renderer_cpu_max_level(l: CpuDetailLevel) -> usize {
    match l {
        CpuDetailLevel::Low => 11,
        CpuDetailLevel::Medium => 15,
        CpuDetailLevel::High => 16,
        CpuDetailLevel::Ultra => 17,
    }
}

impl CpuDetail {
    /// A preset with the given deepest level and patch count.
    pub fn new(max_level: usize, desired_patch_count: usize) -> (r: Self)
        ensures
            r.max_level == max_level,
            r.desired_patch_count == desired_patch_count,
    {
        Self { max_level, desired_patch_count }
    }

    /// The parameters the terrain renderer uses for a preset.
    pub fn for_level(level: CpuDetailLevel) -> (r: Self)
        ensures
            r.max_level == renderer_cpu_max_level(level),
            r.desired_patch_count == cpu_patch_count(level),
    {
        match level {
            CpuDetailLevel::Low => Self::new(11, 200),
            CpuDetailLevel::Medium => Self::new(15, 300),
            CpuDetailLevel::High => Self::new(16, 400),
            CpuDetailLevel::Ultra => Self::new(17, 500),
        }
    }
}

/// How much GPU time and memory to spend on the terrain.
#[derive(Copy, Clone, Debug, PartialEq, Eq, Structural)]
pub enum GpuDetailLevel {
    Low,
    Medium,
    High,
    Ultra,
}

/// Subdivision steps run on the GPU each frame, per preset.
pub open spec fn gpu_subdivisions(l: GpuDetailLevel) -> usize {
    match l {
        GpuDetailLevel::Low => 3,
        GpuDetailLevel::Medium => 4,
        GpuDetailLevel::High => 6,
        GpuDetailLevel::Ultra => 7,
    }
}

/// Tiles kept on the GPU, per preset.
pub open spec fn gpu_tile_cache_size(l: GpuDetailLevel) -> u32 {
    match l {
        GpuDetailLevel::Low => 32,
        GpuDetailLevel::Medium => 64,
        GpuDetailLevel::High => 128,
        GpuDetailLevel::Ultra => 256,
    }
}

/// The parameters of a GPU preset.
#[derive(Copy, Clone, Debug)]
pub struct GpuDetail {
    /// Number of tessellation subdivision steps to compute on the GPU each frame.
    pub subdivisions: usize,
    /// The number of tiles to store on the GPU.
    pub tile_cache_size: u32,
}

/// Subdivision steps of each GPU preset as the terrain renderer sets them up: the low and
/// medium presets subdivide once more than the geometry-only presets.
pub open spec fn renderer_gpu_subdivisions(l: GpuDetailLevel) -> usize {
    match l {
        GpuDetailLevel::Low => 4,
        GpuDetailLevel::Medium => 5,
        GpuDetailLevel::High => 6,
        GpuDetailLevel::Ultra => 7,
    }
}

impl GpuDetail {
    /// A preset with the given subdivisions and tile cache size.
    pub fn new(subdivisions: usize, tile_cache_size: u32) -> (r: Self)
        ensures
            r.subdivisions == subdivisions,
            r.tile_cache_size == tile_cache_size,
    {
        Self { subdivisions, tile_cache_size }
    }

    /// The parameters the terrain renderer uses for a preset.
    pub fn for_level(level: GpuDetailLevel) -> (r: Self)
        ensures
            r.subdivisions == renderer_gpu_subdivisions(level),
            r.tile_cache_size == gpu_tile_cache_size(level),
    {
        match level {
            GpuDetailLevel::Low => Self::new(4, 32),
            GpuDetailLevel::Medium => Self::new(5, 64),
            GpuDetailLevel::High => Self::new(6, 128),
            GpuDetailLevel::Ultra => Self::new(7, 256),
        }
    }
}

/// Vertices of a patch subdivided `d` times: the triangle number of the `2^d + 1` vertices
/// along an edge.
pub open spec fn vertex_count(d: nat) -> int {
    ((pow2(d) + 1) * (pow2(d) + 2) / 2) as int
}

impl GpuDetailLevel {
    /// Subdivisions and tile cache size of this preset.
    pub fn parameters(&self) -> (r: GpuDetail)
        ensures
            r.subdivisions == gpu_subdivisions(*self),
            r.tile_cache_size == gpu_tile_cache_size(*self),
    {
        match self {
            Self::Low => GpuDetail { subdivisions: 3, tile_cache_size: 32 },
            Self::Medium => GpuDetail { subdivisions: 4, tile_cache_size: 64 },
            Self::High => GpuDetail { subdivisions: 6, tile_cache_size: 128 },
            Self::Ultra => GpuDetail { subdivisions: 7, tile_cache_size: 256 },
        }
    }

    /// Vertices in a patch after `d` subdivisions, for up to 26 subdivisions: counts below 2^53,
    /// where the count is an exact double.
    pub fn vertices_per_subdivision(d: usize) -> (r: usize)
        requires
            d <= 26,
            vertex_count(d as nat) <= usize::MAX,
        ensures
            r == vertex_count(d as nat),
    {
        let mut p: usize = 1;
        let mut i: usize = 0;
        proof {
            crate::tile::lemma_pow2_mono(0, d as nat);
            lemma_vertex_count_bound(d as nat);
        }
        while i < d
            invariant
                0 <= i <= d,
                p == pow2(i as nat),
                pow2(d as nat) + 2 <= usize::MAX,
            decreases d - i,
        {
            proof {
                crate::tile::lemma_pow2_mono((i + 1) as nat, d as nat);
            }
            p = p * 2;
            i = i + 1;
        }
        proof {
            lemma_vertex_count_bound(d as nat);
        }
        if p % 2 == 0 {
            let h = p / 2 + 1;
            assert(h * (p + 1) == (p + 1) * (p + 2) / 2) by (nonlinear_arith)
                requires
                    p % 2 == 0,
                    h == p / 2 + 1,
            ;
            h * (p + 1)
        } else {
            let h = (p + 1) / 2;
            assert(p + 1 == 2 * h);
            assert((p + 1) * (p + 2) == 2 * (h * (p + 2))) by (nonlinear_arith)
                requires
                    p + 1 == 2 * h,
            ;
            h * (p + 2)
        }
    }
}

/// The product of two consecutive integers is even, and an edge of `2^d + 1` vertices fits when
/// the count does.
pub proof fn lemma_vertex_count_bound(d: nat)
    ensures
        pow2(d) >= 1,
        (pow2(d) + 1) * (pow2(d) + 2) % 2 == 0,
        vertex_count(d) >= pow2(d) + 2,
{
    crate::tile::lemma_pow2_mono(0, d);
    let p = pow2(d) as int;
    assert((p + 1) * (p + 2) == p * p + 3 * p + 2) by (nonlinear_arith);
    assert((p + 1) * (p + 2) % 2 == 0) by (nonlinear_arith)
        requires
            p >= 1,
    {
        if p % 2 == 0 {
            assert((p + 2) % 2 == 0);
        } else {
            assert((p + 1) % 2 == 0);
        }
    }
    assert((p + 1) * (p + 2) / 2 >= p + 2) by (nonlinear_arith)
        requires
            p >= 1,
    ;
}

/// Each subdivision step adds vertices.
pub proof fn lemma_vertex_count_increases(d: nat)
    ensures
        vertex_count(d) < vertex_count(d + 1),
{
    crate::tile::lemma_pow2_mono(0, d);
    let p = pow2(d) as int;
    assert(pow2(d + 1) == 2 * p);
    lemma_vertex_count_bound(d);
    lemma_vertex_count_bound(d + 1);
    assert((p + 1) * (p + 2) < (2 * p + 1) * (2 * p + 2)) by (nonlinear_arith)
        requires
            p >= 1,
    ;
    assert((p + 1) * (p + 2) / 2 < (2 * p + 1) * (2 * p + 2) / 2) by (nonlinear_arith)
        requires
            (p + 1) * (p + 2) < (2 * p + 1) * (2 * p + 2),
            (p + 1) * (p + 2) % 2 == 0,
            (2 * p + 1) * (2 * p + 2) % 2 == 0,
    ;
}

/// Subdivision counts grow with the number of steps.
pub proof fn lemma_vertex_count_mono(a: nat, b: nat)
    requires
        a <= b,
    ensures
        vertex_count(a) <= vertex_count(b),
    decreases b - a,
{
    if a < b {
        lemma_vertex_count_mono(a, (b - 1) as nat);
        lemma_vertex_count_increases((b - 1) as nat);
    }
}

/// Constants of the whole subdivision shared with the GPU.
#[derive(Copy, Clone, Debug)]
pub struct SubdivisionContext {
    /// Number of unique vertices in a patch at the target subdivision level: skip past this many
    /// vertices in a buffer to get to the next patch.
    pub target_stride: u32,
    /// The final target subdivision level of the subdivision process.
    pub target_subdivision_level: u32,
}

/// Constants of one expansion step.
#[derive(Copy, Clone, Debug)]
pub struct SubdivisionExpandContext {
    /// The target subdivision level after this expand call.
    pub current_target_subdivision_level: u32,
    /// The number of vertices to skip at the start of each patch: the vertices of the previous
    /// level.
    pub skip_vertices_in_patch: u32,
    /// The number of vertices to compute per patch in this step: those of this level minus
    /// those of the previous one.
    pub compute_vertices_in_patch: u32,
}

impl SubdivisionContext {
    /// The context for `max_subdivisions` steps.
    pub fn new(max_subdivisions: usize) -> (r: Self)
        requires
            max_subdivisions <= 26,
            vertex_count(max_subdivisions as nat) <= u32::MAX,
        ensures
            r.target_stride == vertex_count(max_subdivisions as nat),
            r.target_subdivision_level == max_subdivisions,
    {
        let stride = GpuDetailLevel::vertices_per_subdivision(max_subdivisions);
        Self { target_stride: stride as u32, target_subdivision_level: max_subdivisions as u32 }
    }

    /// Vertices in the target buffer for `desired_patch_count` patches.
    pub fn target_vertex_count(&self, desired_patch_count: usize) -> (r: u32)
        requires
            self.target_stride * desired_patch_count <= u32::MAX,
        ensures
            r == self.target_stride * desired_patch_count,
    {
        proof {
            if desired_patch_count > u32::MAX {
                assert(self.target_stride * desired_patch_count <= u32::MAX);
                assert(self.target_stride == 0) by (nonlinear_arith)
                    requires
                        self.target_stride * desired_patch_count <= u32::MAX,
                        desired_patch_count > u32::MAX,
                ;
            }
        }
        if desired_patch_count > u32::MAX as usize {
            return 0;
        }
        self.target_stride * desired_patch_count as u32
    }

    /// The first vertex of patch `patch_number` in the target buffer.
    pub fn patch_vertex_buffer_offset(&self, patch_number: i32) -> (r: i32)
        requires
            patch_number >= 0,
            patch_number * self.target_stride <= u32::MAX,
        ensures
            r == (patch_number * self.target_stride) as i32,
    {
        (patch_number as u32 * self.target_stride) as i32
    }

    /// The final subdivision level.
    pub fn target_patch_subdivision_level(&self) -> (r: u32)
        ensures
            r == self.target_subdivision_level,
    {
        self.target_subdivision_level
    }
}

/// The expansion steps for `max_subdivisions` subdivisions: step `i` (from 1) skips the
/// vertices of level `i - 1` and computes the ones level `i` adds.
pub fn expand_contexts(max_subdivisions: usize) -> (r: Vec<SubdivisionExpandContext>)
    requires
        max_subdivisions <= 26,
        vertex_count(max_subdivisions as nat) <= u32::MAX,
    ensures
        r@.len() == max_subdivisions,
        forall|i: int|
            0 <= i < r@.len() ==> {
                let c = #[trigger] r@[i];
                &&& c.current_target_subdivision_level == i + 1
                &&& c.skip_vertices_in_patch == vertex_count(i as nat)
                &&& c.compute_vertices_in_patch == vertex_count((i + 1) as nat) - vertex_count(
                    i as nat,
                )
                &&& c.skip_vertices_in_patch + c.compute_vertices_in_patch == vertex_count(
                    (i + 1) as nat,
                )
                &&& c.compute_vertices_in_patch > 0
            },
{
    let mut r: Vec<SubdivisionExpandContext> = Vec::new();
    let mut i: usize = 1;
    while i <= max_subdivisions
        invariant
            1 <= i <= max_subdivisions + 1,
            max_subdivisions <= 26,
            vertex_count(max_subdivisions as nat) <= u32::MAX,
            r@.len() == i - 1,
            forall|j: int|
                0 <= j < r@.len() ==> {
                    let c = #[trigger] r@[j];
                    &&& c.current_target_subdivision_level == j + 1
                    &&& c.skip_vertices_in_patch == vertex_count(j as nat)
                    &&& c.compute_vertices_in_patch == vertex_count((j + 1) as nat)
                        - vertex_count(j as nat)
                    &&& c.skip_vertices_in_patch + c.compute_vertices_in_patch == vertex_count(
                        (j + 1) as nat,
                    )
                    &&& c.compute_vertices_in_patch > 0
                },
        decreases max_subdivisions + 1 - i,
    {
        proof {
            lemma_vertex_count_mono(i as nat, max_subdivisions as nat);
            lemma_vertex_count_increases((i - 1) as nat);
        }
        let cur = GpuDetailLevel::vertices_per_subdivision(i);
        let prev = GpuDetailLevel::vertices_per_subdivision(i - 1);
        r.push(
            SubdivisionExpandContext {
                current_target_subdivision_level: i as u32,
                skip_vertices_in_patch: prev as u32,
                compute_vertices_in_patch: (cur - prev) as u32,
            },
        );
        i = i + 1;
    }
    r
}

/// Width of one row of compute work groups.
pub const WORKGROUP_WIDTH: u32 = 65536;

/// Work-group counts for a step that computes `iteration_count` vertices: the count modulo and
/// divided by the 65536-wide work-group row, each at least 1.
pub fn dispatch_size(iteration_count: u32) -> (r: (u32, u32))
    ensures
        r.0 == (if iteration_count % 65536 == 0 {
            1
        } else {
            iteration_count % 65536
        }),
        r.1 == (if iteration_count / 65536 == 0 {
            1
        } else {
            iteration_count / 65536
        }),
{
    let x = iteration_count % WORKGROUP_WIDTH;
    let y = iteration_count / WORKGROUP_WIDTH;
    (if x > 1 { x } else { 1 }, if y > 1 { y } else { 1 })
}

} // verus!
