# Voxel engine core, verified

The integer core of a small voxel game engine, written in Verus and verified:

- `ivec3`: integer 3-vectors with cross product, component-wise min, max, abs and
  arithmetic, each proved free of overflow.
- `svo`: sparse voxel octrees built from voxels, their depth-first encoding, their
  layer-by-layer encoding in which every branch record holds the offsets of its
  children's records in the next layer, and the proof that those offsets are right for
  every built tree whose root record reads back as its own kind (a leaf root with an octant
  index below 100, a branch root with one of at most 155, or an empty box).
- `layer`: walking, indexing and filling the records of one encoded layer.
- `rle`: run-length compression of voxel data and its inverse, with the round-trip proof.
- `pak`: the byte layout of compressed voxel data in a scene file, with its round trip,
  and reading a `true` flag from the scene header.
- `grid`: writing voxels into a dense color buffer or a voxel list.
- `imageasset`, `glb`: decoding TGA and TIFF pixels, going through the lines of a PPM
  header, binary glTF chunks and index buffers.
- `json`: the engine's line-oriented reader of JSON-like documents, with numbers kept as
  their text, and the proof that what it builds is a tree.
- `obj`: reading the lines of a Wavefront model (coordinates kept as text, face indices
  read as Rust reads a `u32`).
- `mesh`: laying out indexed glTF meshes and Wavefront objects as vertex buffers.
- `render`, `gltf`: plain handle and scene-description types, splitting vertex buffers
  into attributes, and reconciling device switches.

`app/` holds what the library cannot: floating-point vector math, voxelization of
triangles, the scene header in text form, reading numbers as `f32`, the bindings to the
native renderer and audio engine, file access, and a small command-line driver.
