use vstd::prelude::*;

verus! {

/// A glTF material: whether it is double sided, its name, and the indices of its textures.
pub struct Gmaterial {
    pub double_sided: bool,
    pub name: String,
    pub texture_indices: Vec<usize>,
}

/// A glTF mesh primitive: its name, its attributes (accessor index and kind), whether it
/// is indexed, its index accessor, and its material.
pub struct Gmesh {
    pub name: String,
    pub attributes: Vec<(usize, u32)>,
    pub enable_indices: bool,
    pub indices: usize,
    pub material: usize,
}

/// A glTF texture: the index of its image.
pub struct Gtexture {
    pub image: usize,
}

/// A glTF image: its name and location.
pub struct Gimage {
    pub name: String,
    pub uri: String,
}

/// A glTF accessor: its buffer view, component type, element count and element type.
pub struct Gacc {
    pub bufferviwe: usize,
    pub component_type: u32,
    pub count: usize,
    pub tp: String,
}

/// A glTF buffer view: its buffer, byte length, byte offset and target.
pub struct Gbfv {
    pub buffer: usize,
    pub blenght: usize,
    pub boffset: usize,
    pub target: usize,
}

/// A glTF buffer: its byte length and location.
pub struct Gbf {
    pub bl: usize,
    pub uri: String,
}

impl Gbfv {
    /// The bytes this view covers in its buffer: `blenght` bytes from `boffset` on.
    pub fn view_bytes(&self, buffer: &[u8]) -> (r: Vec<u8>)
        requires
            self.boffset + self.blenght <= buffer@.len(),
        ensures
            r@ == buffer@.subrange(self.boffset as int, self.boffset + self.blenght),
    {
        let n: usize = buffer.len();
        assert(self.boffset + self.blenght <= n);
        let to = self.boffset + self.blenght;
        let mut out: Vec<u8> = Vec::new();
        let mut j: usize = self.boffset;
        while j < to
            invariant
                self.boffset <= j <= to,
                to == self.boffset + self.blenght,
                to <= buffer@.len(),
                out@ == buffer@.subrange(self.boffset as int, j as int),
            decreases to - j,
        {
            out.push(buffer[j]);
            j += 1;
        }
        out
    }
}

} // verus!
