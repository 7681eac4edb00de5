use vstd::prelude::*;
use crate::ivec3::Ivec3;
use crate::svo::Voxel;

verus! {

/// The integer state of a voxel scene: its dense color buffer (four bytes per voxel), the
/// list of set voxels, and the number of voxels along each axis.
pub struct VoxelGrid {
    pub data: Vec<u8>,
    pub voxels: Vec<Voxel>,
    pub size: [u32; 3],
}

/// Whether voxel `(x, y, z)` lies inside a grid of the given size.
pub open spec fn in_grid(size: Seq<u32>, x: u32, y: u32, z: u32) -> bool {
    x < size[0] && y < size[1] && z < size[2]
}

/// The dense index of voxel `(x, y, z)`: `x + y * size_x + z * size_y * size_x`.
pub open spec fn dense_index(size: Seq<u32>, x: u32, y: u32, z: u32) -> int {
    x + y * size[0] + z * size[1] * size[0]
}

/// Whether the dense index of `(x, y, z)` is computed in 32 bits without overflow and its
/// four color bytes lie inside a buffer of `len` bytes.
pub open spec fn dense_ok(size: Seq<u32>, x: u32, y: u32, z: u32, len: nat) -> bool {
    &&& y * size[0] <= u32::MAX
    &&& x + y * size[0] <= u32::MAX
    &&& z * size[1] <= u32::MAX
    &&& z * size[1] * size[0] <= u32::MAX
    &&& dense_index(size, x, y, z) <= u32::MAX
    &&& 4 * dense_index(size, x, y, z) + 3 < len
}

impl VoxelGrid {
    /// A grid with the given dense buffer and size and no listed voxels.
    pub fn new(data: Vec<u8>, size: [u32; 3]) -> (r: VoxelGrid)
        ensures
            r.data@ == data@,
            r.voxels@.len() == 0,
            r.size@ == size@,
    {
        VoxelGrid { data, voxels: Vec::new(), size }
    }

    /// Colors voxel `(x, y, z)` when it lies inside the grid: with `vx` set, appends it to the
    /// voxel list; otherwise writes its four color bytes into the dense buffer. A voxel
    /// outside the grid changes nothing.
    pub fn set(&mut self, x: u32, y: u32, z: u32, color: [u8; 4], vx: bool)
        requires
            in_grid(old(self).size@, x, y, z) && !vx ==> dense_ok(
                old(self).size@,
                x,
                y,
                z,
                old(self).data@.len(),
            ),
        ensures
            final(self).size@ == old(self).size@,
            !in_grid(old(self).size@, x, y, z) ==> final(self).data@ == old(self).data@ && final(self).voxels@
                == old(self).voxels@,
            in_grid(old(self).size@, x, y, z) && vx ==> final(self).data@ == old(self).data@
                && final(self).voxels@ == old(self).voxels@.push(
                Voxel { pos: Ivec3 { x: x as i32, y: y as i32, z: z as i32 }, color },
            ),
            in_grid(old(self).size@, x, y, z) && !vx ==> final(self).voxels@ == old(self).voxels@
                && final(self).data@ == old(self).data@.update(4 * dense_index(old(self).size@, x, y, z), color[0])
                .update(4 * dense_index(old(self).size@, x, y, z) + 1, color[1])
                .update(4 * dense_index(old(self).size@, x, y, z) + 2, color[2])
                .update(4 * dense_index(old(self).size@, x, y, z) + 3, color[3]),
    {
        if x < self.size[0] && y < self.size[1] && z < self.size[2] {
            if vx {
                self.voxels.push(Voxel { pos: Ivec3 { x: x as i32, y: y as i32, z: z as i32 }, color });
            } else {
                let idx = (x + y * self.size[0] + z * self.size[1] * self.size[0]) as usize;
                let n = self.data.len();
                assert(4 * idx + 3 < n);
                self.data.set(idx * 4, color[0]);
                self.data.set(idx * 4 + 1, color[1]);
                self.data.set(idx * 4 + 2, color[2]);
                self.data.set(idx * 4 + 3, color[3]);
            }
        }
    }
}

} // verus!
