use vstd::prelude::*;

verus! {

/// Which faces the rasterizer discards.
#[derive(Clone, Copy, PartialEq, Eq, Structural)]
pub enum CullMode {
    CullModeNone,
    CullModeFrontBit,
    CullModeBackBit,
    CullModeFrontAndBack,
}

impl CullMode {
    /// The Vulkan cull-mode flags of this mode.
    pub fn code(self) -> (r: u32)
        ensures
            r == match self {
                CullMode::CullModeNone => 0u32,
                CullMode::CullModeFrontBit => 1u32,
                CullMode::CullModeBackBit => 2u32,
                CullMode::CullModeFrontAndBack => 3u32,
            },
    {
        match self {
            CullMode::CullModeNone => 0,
            CullMode::CullModeFrontBit => 1,
            CullMode::CullModeBackBit => 2,
            CullMode::CullModeFrontAndBack => 3,
        }
    }
}

/// The render passes a mesh takes part in.
#[derive(Clone, Copy, PartialEq, Eq, Structural)]
pub enum MeshUsage {
    LightingPass,
    DefferedPass,
    ShadowPass,
    ShadowAndDefferedPass,
}

impl MeshUsage {
    /// The pass code the renderer expects for this usage.
    pub fn code(self) -> (r: u32)
        ensures
            r == match self {
                MeshUsage::LightingPass => 0u32,
                MeshUsage::DefferedPass => 1u32,
                MeshUsage::ShadowPass => 2u32,
                MeshUsage::ShadowAndDefferedPass => 3u32,
            },
    {
        match self {
            MeshUsage::LightingPass => 0,
            MeshUsage::DefferedPass => 1,
            MeshUsage::ShadowPass => 2,
            MeshUsage::ShadowAndDefferedPass => 3,
        }
    }
}

/// The handle of a shader set known to the renderer.
#[derive(Clone, Copy)]
pub struct MaterialShaders {
    pub materialid: u32,
}

/// The handle of a vertex buffer known to the renderer.
#[derive(Clone, Copy)]
pub struct Vertexes {
    pub modelid: u32,
}

/// The handle of a texture known to the renderer.
#[derive(Clone, Copy)]
pub struct Texture {
    pub texid: u32,
}

/// An image: a texture on the renderer.
#[derive(Clone, Copy)]
pub struct Image {
    pub textures: Texture,
}

/// A material: a shader set on the renderer.
pub struct Material {
    pub material_shaders: MaterialShaders,
}

/// A model: a vertex buffer on the renderer.
#[derive(Clone, Copy)]
pub struct Model {
    pub vertexbuf: Vertexes,
}

/// A coordinate axis.
#[derive(Clone, Copy)]
pub enum Axis {
    X,
    Y,
    Z,
}

/// The number of vertices in an interleaved-by-block vertex buffer: eight values per vertex.
pub open spec fn vertex_count(len: nat) -> nat {
    len / 8
}

/// Splits a vertex buffer laid out as all positions (three values per vertex), then all
/// texture coordinates (two per vertex), then all normals (three per vertex) into the three
/// attribute arrays. Values past the last whole vertex are ignored.
pub fn split_vertex_attributes<T: Copy>(vertices: &Vec<T>) -> (r: (Vec<T>, Vec<T>, Vec<T>))
    ensures
        r.0@ == vertices@.subrange(0, 3 * vertex_count(vertices@.len()) as int),
        r.1@ == vertices@.subrange(
            3 * vertex_count(vertices@.len()) as int,
            5 * vertex_count(vertices@.len()) as int,
        ),
        r.2@ == vertices@.subrange(
            5 * vertex_count(vertices@.len()) as int,
            8 * vertex_count(vertices@.len()) as int,
        ),
{
    let len: usize = vertices.len();
    let size: usize = len / 8;
    let mut v: Vec<T> = Vec::new();
    let mut u: Vec<T> = Vec::new();
    let mut n: Vec<T> = Vec::new();
    let mut i: usize = 0;
    while i < size * 3
        invariant
            size == vertex_count(vertices@.len()),
            8 * size <= len,
            len == vertices@.len(),
            i <= size * 3,
            v@ == vertices@.subrange(0, i as int),
        decreases size * 3 - i,
    {
        v.push(vertices[i]);
        i = i + 1;
    }
    let mut i: usize = 0;
    while i < size * 2
        invariant
            size == vertex_count(vertices@.len()),
            8 * size <= len,
            len == vertices@.len(),
            i <= size * 2,
            u@ == vertices@.subrange(3 * size as int, 3 * size + i),
        decreases size * 2 - i,
    {
        u.push(vertices[i + size * 3]);
        i = i + 1;
    }
    let mut i: usize = 0;
    while i < size * 3
        invariant
            size == vertex_count(vertices@.len()),
            8 * size <= len,
            len == vertices@.len(),
            i <= size * 3,
            n@ == vertices@.subrange(5 * size as int, 5 * size + i),
        decreases size * 3 - i,
    {
        n.push(vertices[i + size * 5]);
        i = i + 1;
    }
    (v, u, n)
}

/// Reconciles a switch the user sets with the state last applied on the device: where they
/// differ the requested state is to be applied (`Some` of it), else nothing is to be done.
pub fn sync_toggle(requested: bool, applied: bool) -> (r: Option<bool>)
    ensures
        r == (if requested != applied { Some(requested) } else { None::<bool> }),
{
    if requested != applied {
        Some(requested)
    } else {
        None
    }
}

} // verus!
