use vstd::prelude::*;
use crate::bytes::{from_le32, le32, u32_le_bytes};
use crate::ivec3::{Ivec3, div_trunc};
use crate::layer::{
    fill_fits, walk_fits,
    BRANCH_MARKER, compute_raw_data_indices, fill_indices, fill_ok, filled, is_record, lemma_fill_keeps_records,
    lemma_fill_readback, lemma_record_prefix, record_slots, record_starts, slot_bytes, slots, starts32, walk_ok,
};

verus! {

/// The first byte of a leaf in the depth-first encoding.
pub const LEAF_MARKER: u8 = 0;

/// The octant index that marks an empty region.
pub const EMPTY_OCTANT: u8 = 9;

/// A colored voxel at an integer position.
#[derive(Clone, Copy)]
pub struct Voxel {
    pub pos: Ivec3,
    pub color: [u8; 4],
}

/// A node of a sparse voxel octree.
pub struct SVO {
    is_leaf: bool,
    color: [u8; 4],
    children: Vec<SVO>,
    octant_index: u8,
}

/// Whether `p` lies in the closed box from `lo` to `hi`.
pub open spec fn in_box(p: Ivec3, lo: Ivec3, hi: Ivec3) -> bool {
    &&& lo.x <= p.x <= hi.x
    &&& lo.y <= p.y <= hi.y
    &&& lo.z <= p.z <= hi.z
}

/// Whether some voxel of `vs` lies in the box from `lo` to `hi`.
pub open spec fn has_hit(vs: Seq<Voxel>, lo: Ivec3, hi: Ivec3) -> bool {
    exists|k: int| 0 <= k < vs.len() && #[trigger] in_box(vs[k].pos, lo, hi)
}

/// Whether `k` is the first voxel of `vs` in the box from `lo` to `hi`.
pub open spec fn is_first_hit(vs: Seq<Voxel>, lo: Ivec3, hi: Ivec3, k: int) -> bool {
    &&& 0 <= k < vs.len()
    &&& in_box(vs[k].pos, lo, hi)
    &&& forall|j: int| 0 <= j < k ==> !#[trigger] in_box(vs[j].pos, lo, hi)
}

/// The index of the first voxel of `vs` in the box from `lo` to `hi`.
pub open spec fn first_hit(vs: Seq<Voxel>, lo: Ivec3, hi: Ivec3) -> int {
    choose|k: int| is_first_hit(vs, lo, hi, k)
}

/// The midpoint of the box from `lo` to `hi`, each coordinate rounded toward zero.
pub open spec fn mid(lo: Ivec3, hi: Ivec3) -> Ivec3 {
    Ivec3 {
        x: div_trunc(lo.x + hi.x, 2) as i32,
        y: div_trunc(lo.y + hi.y, 2) as i32,
        z: div_trunc(lo.z + hi.z, 2) as i32,
    }
}

/// Whether the coordinate sums of the midpoint computation fit in `i32`.
pub open spec fn mid_ok(lo: Ivec3, hi: Ivec3) -> bool {
    &&& i32::MIN <= lo.x + hi.x <= i32::MAX
    &&& i32::MIN <= lo.y + hi.y <= i32::MAX
    &&& i32::MIN <= lo.z + hi.z <= i32::MAX
}

/// The lower corner of octant `k` (bit 0: upper x half, bit 1: upper y half, bit 2: upper z half).
pub open spec fn octant_lo(lo: Ivec3, hi: Ivec3, k: int) -> Ivec3 {
    let m = mid(lo, hi);
    Ivec3 {
        x: if k % 2 == 1 { m.x } else { lo.x },
        y: if (k / 2) % 2 == 1 { m.y } else { lo.y },
        z: if (k / 4) % 2 == 1 { m.z } else { lo.z },
    }
}

/// The upper corner of octant `k`.
pub open spec fn octant_hi(lo: Ivec3, hi: Ivec3, k: int) -> Ivec3 {
    let m = mid(lo, hi);
    Ivec3 {
        x: if k % 2 == 1 { hi.x } else { m.x },
        y: if (k / 2) % 2 == 1 { hi.y } else { m.y },
        z: if (k / 4) % 2 == 1 { hi.z } else { m.z },
    }
}

/// Whether building the octree over `vs` in the given box to the given depth
/// computes every box midpoint without overflow.
pub open spec fn build_ok(vs: Seq<Voxel>, lo: Ivec3, hi: Ivec3, level: nat) -> bool
    decreases level,
{
    if !has_hit(vs, lo, hi) || level == 0 {
        true
    } else {
        &&& mid_ok(lo, hi)
        &&& build_ok(vs, octant_lo(lo, hi, 0), octant_hi(lo, hi, 0), (level - 1) as nat)
        &&& build_ok(vs, octant_lo(lo, hi, 1), octant_hi(lo, hi, 1), (level - 1) as nat)
        &&& build_ok(vs, octant_lo(lo, hi, 2), octant_hi(lo, hi, 2), (level - 1) as nat)
        &&& build_ok(vs, octant_lo(lo, hi, 3), octant_hi(lo, hi, 3), (level - 1) as nat)
        &&& build_ok(vs, octant_lo(lo, hi, 4), octant_hi(lo, hi, 4), (level - 1) as nat)
        &&& build_ok(vs, octant_lo(lo, hi, 5), octant_hi(lo, hi, 5), (level - 1) as nat)
        &&& build_ok(vs, octant_lo(lo, hi, 6), octant_hi(lo, hi, 6), (level - 1) as nat)
        &&& build_ok(vs, octant_lo(lo, hi, 7), octant_hi(lo, hi, 7), (level - 1) as nat)
    }
}

/// Whether the root of the tree built over `vs` in the box from `lo` to `hi` with `levels`
/// levels at octant `oct` gets a record that reads back as its own kind: an empty box gives
/// an empty leaf; a leaf at level 0 needs an octant below 100, a branch one of at most 155.
pub open spec fn built_root_ok(vs: Seq<Voxel>, lo: Ivec3, hi: Ivec3, levels: nat, oct: u8) -> bool {
    !has_hit(vs, lo, hi) || (if levels == 0 { oct < 100 } else { oct <= 155 })
}

/// Whether every coordinate of `lo` and `hi` lies between -2^30 and 2^30, `lo` is not above
/// `hi` and below 2^30 on every axis: the boxes of `from_vertices_svo`, from the origin to
/// `2^levels` for up to 30 levels.
pub open spec fn small_box(lo: Ivec3, hi: Ivec3) -> bool {
    &&& -0x4000_0000 <= lo.x <= hi.x <= 0x4000_0000 && lo.x < 0x4000_0000
    &&& -0x4000_0000 <= lo.y <= hi.y <= 0x4000_0000 && lo.y < 0x4000_0000
    &&& -0x4000_0000 <= lo.z <= hi.z <= 0x4000_0000 && lo.z < 0x4000_0000
}

/// Whether the box is empty on some axis, as the box of `from_vertices_svo` is for 31
/// levels, whose corner `2^31` wraps to a negative coordinate.
pub open spec fn empty_box(lo: Ivec3, hi: Ivec3) -> bool {
    lo.x > hi.x || lo.y > hi.y || lo.z > hi.z
}

proof fn lemma_mid_between(a: int, b: int)
    requires
        a <= b,
    ensures
        a <= div_trunc(a + b, 2) <= b,
        a + b < 0x8000_0000 ==> div_trunc(a + b, 2) < 0x4000_0000,
{
}

/// Building the octree over a small box (see `small_box`) never overflows, whatever the
/// voxels and the depth.
pub proof fn lemma_small_box_build_ok(vs: Seq<Voxel>, lo: Ivec3, hi: Ivec3, level: nat)
    requires
        small_box(lo, hi),
    ensures
        build_ok(vs, lo, hi, level),
    decreases level,
{
    if has_hit(vs, lo, hi) && level > 0 {
        lemma_mid_between(lo.x as int, hi.x as int);
        lemma_mid_between(lo.y as int, hi.y as int);
        lemma_mid_between(lo.z as int, hi.z as int);
        assert forall|k: int| 0 <= k < 8 implies small_box(#[trigger] octant_lo(lo, hi, k), octant_hi(lo, hi, k)) by {}
        lemma_small_box_build_ok(vs, octant_lo(lo, hi, 0), octant_hi(lo, hi, 0), (level - 1) as nat);
        lemma_small_box_build_ok(vs, octant_lo(lo, hi, 1), octant_hi(lo, hi, 1), (level - 1) as nat);
        lemma_small_box_build_ok(vs, octant_lo(lo, hi, 2), octant_hi(lo, hi, 2), (level - 1) as nat);
        lemma_small_box_build_ok(vs, octant_lo(lo, hi, 3), octant_hi(lo, hi, 3), (level - 1) as nat);
        lemma_small_box_build_ok(vs, octant_lo(lo, hi, 4), octant_hi(lo, hi, 4), (level - 1) as nat);
        lemma_small_box_build_ok(vs, octant_lo(lo, hi, 5), octant_hi(lo, hi, 5), (level - 1) as nat);
        lemma_small_box_build_ok(vs, octant_lo(lo, hi, 6), octant_hi(lo, hi, 6), (level - 1) as nat);
        lemma_small_box_build_ok(vs, octant_lo(lo, hi, 7), octant_hi(lo, hi, 7), (level - 1) as nat);
    }
}

/// Building the octree over a box that is empty on some axis never computes a midpoint.
pub proof fn lemma_empty_box_build_ok(vs: Seq<Voxel>, lo: Ivec3, hi: Ivec3, level: nat)
    requires
        empty_box(lo, hi),
    ensures
        build_ok(vs, lo, hi, level),
        !has_hit(vs, lo, hi),
{
}

impl SVO {
    /// The octant index of this node within its parent.
    pub closed spec fn octant(self) -> u8 {
        self.octant_index
    }

    /// Whether this node is exactly the octree that `build_tree_recursive` makes
    /// from `vs` over the box from `lo` to `hi` with `level` levels below it, at octant `oct`:
    /// a box that holds no voxel is an empty leaf (black, octant 9); a box at level 0 that
    /// holds a voxel is a leaf of the color of the first such voxel; any other box is a
    /// black branch whose eight children are the octants of the box, in order.
    pub closed spec fn is_build(self, vs: Seq<Voxel>, lo: Ivec3, hi: Ivec3, level: nat, oct: u8) -> bool
        decreases level, 1nat,
    {
        if !has_hit(vs, lo, hi) {
            &&& self.is_leaf
            &&& self.color@ == seq![0u8, 0u8, 0u8, 0u8]
            &&& self.children@.len() == 0
            &&& self.octant_index == EMPTY_OCTANT
        } else if level == 0 {
            &&& self.is_leaf
            &&& self.color@ == vs[first_hit(vs, lo, hi)].color@
            &&& self.children@.len() == 0
            &&& self.octant_index == oct
        } else {
            &&& !self.is_leaf
            &&& self.color@ == seq![0u8, 0u8, 0u8, 0u8]
            &&& self.children@.len() == 8
            &&& self.octant_index == oct
            &&& self.child_is_build(vs, lo, hi, level, 0)
            &&& self.child_is_build(vs, lo, hi, level, 1)
            &&& self.child_is_build(vs, lo, hi, level, 2)
            &&& self.child_is_build(vs, lo, hi, level, 3)
            &&& self.child_is_build(vs, lo, hi, level, 4)
            &&& self.child_is_build(vs, lo, hi, level, 5)
            &&& self.child_is_build(vs, lo, hi, level, 6)
            &&& self.child_is_build(vs, lo, hi, level, 7)
        }
    }

    /// Whether child `k` of this node is the octree built for octant `k` of the box.
    pub closed spec fn child_is_build(self, vs: Seq<Voxel>, lo: Ivec3, hi: Ivec3, level: nat, k: int) -> bool
        decreases level, 0nat,
    {
        level > 0 && 0 <= k < self.children@.len() && self.children@[k].is_build(
            vs,
            octant_lo(lo, hi, k),
            octant_hi(lo, hi, k),
            (level - 1) as nat,
            k as u8,
        )
    }

    /// Builds the sparse voxel octree of `voxels` over the box from `boxmin` to `boxmax`,
    /// subdividing `current_level` times; the root gets the octant index `octant_index`.
    pub fn build_tree_recursive(
        voxels: Vec<Voxel>,
        boxmin: Ivec3,
        boxmax: Ivec3,
        current_level: u32,
        octant_index: u8,
    ) -> (r: SVO)
        requires
            build_ok(voxels@, boxmin, boxmax, current_level as nat),
        ensures
            r.is_build(voxels@, boxmin, boxmax, current_level as nat, octant_index),
            r.wf(),
    {
        let r = Self::build_from(&voxels, boxmin, boxmax, current_level, octant_index);
        proof {
            r.lemma_build_wf(voxels@, boxmin, boxmax, current_level as nat, octant_index);
        }
        r
    }

    fn build_from(voxels: &Vec<Voxel>, boxmin: Ivec3, boxmax: Ivec3, current_level: u32, octant_index: u8) -> (r: SVO)
        requires
            build_ok(voxels@, boxmin, boxmax, current_level as nat),
        ensures
            r.is_build(voxels@, boxmin, boxmax, current_level as nat, octant_index),
        decreases current_level,
    {
        match find_first(voxels, boxmin, boxmax) {
            None => {
                let r = SVO { is_leaf: true, color: [0, 0, 0, 0], children: Vec::new(), octant_index: EMPTY_OCTANT };
                assert(r.color@ =~= seq![0u8, 0u8, 0u8, 0u8]);
                r
            },
            Some(k) => {
                if current_level == 0 {
                    SVO { is_leaf: true, color: voxels[k].color, children: Vec::new(), octant_index: octant_index }
                } else {
                    let m = Ivec3 {
                        x: (boxmin.x + boxmax.x) / 2,
                        y: (boxmin.y + boxmax.y) / 2,
                        z: (boxmin.z + boxmax.z) / 2,
                    };
                    assert(m == mid(boxmin, boxmax));
                    let ghost lv: nat = (current_level as nat - 1) as nat;
                    assert(lv == (current_level - 1) as nat);
                    assert(forall|kk: int|
                        0 <= kk < 8 ==> #[trigger] build_ok(
                            voxels@,
                            octant_lo(boxmin, boxmax, kk),
                            octant_hi(boxmin, boxmax, kk),
                            lv,
                        ));
                    let mut children: Vec<SVO> = Vec::new();
                    let mut o: u8 = 0;
                    while o < 8
                        invariant
                            o <= 8,
                            children@.len() == o,
                            current_level > 0,
                            m == mid(boxmin, boxmax),
                            forall|kk: int|
                                0 <= kk < 8 ==> #[trigger] build_ok(
                                    voxels@,
                                    octant_lo(boxmin, boxmax, kk),
                                    octant_hi(boxmin, boxmax, kk),
                                    lv,
                                ),
                            forall|j: int|
                                0 <= j < o ==> #[trigger] children@[j].is_build(
                                    voxels@,
                                    octant_lo(boxmin, boxmax, j),
                                    octant_hi(boxmin, boxmax, j),
                                    lv,
                                    j as u8,
                                ),
                            lv == (current_level - 1) as nat,
                        decreases 8 - o,
                    {
                        let (lo, hi) = octant_box(boxmin, boxmax, m, o);
                        assert(build_ok(voxels@, lo, hi, lv));
                        let c = Self::build_from(voxels, lo, hi, current_level - 1, o);
                        children.push(c);
                        o = o + 1;
                    }
                    let r = SVO { is_leaf: false, color: [0, 0, 0, 0], children, octant_index };
                    assert(r.color@ =~= seq![0u8, 0u8, 0u8, 0u8]);
                    assert forall|k: int| 0 <= k < 8 implies #[trigger] r.child_is_build(
                        voxels@,
                        boxmin,
                        boxmax,
                        current_level as nat,
                        k,
                    ) by {
                        assert(r.children@[k].is_build(
                            voxels@,
                            octant_lo(boxmin, boxmax, k),
                            octant_hi(boxmin, boxmax, k),
                            lv,
                            k as u8,
                        ));
                    }
                    assert(r.child_is_build(voxels@, boxmin, boxmax, current_level as nat, 0));
                    assert(r.child_is_build(voxels@, boxmin, boxmax, current_level as nat, 1));
                    assert(r.child_is_build(voxels@, boxmin, boxmax, current_level as nat, 2));
                    assert(r.child_is_build(voxels@, boxmin, boxmax, current_level as nat, 3));
                    assert(r.child_is_build(voxels@, boxmin, boxmax, current_level as nat, 4));
                    assert(r.child_is_build(voxels@, boxmin, boxmax, current_level as nat, 5));
                    assert(r.child_is_build(voxels@, boxmin, boxmax, current_level as nat, 6));
                    assert(r.child_is_build(voxels@, boxmin, boxmax, current_level as nat, 7));
                    r
                }
            },
        }
    }
}

impl SVO {
    /// Whether the tree has the shape `build_tree_recursive` gives it: a leaf has no
    /// children, a branch has exactly eight, each at an octant index of at most 9, and a
    /// node at the empty octant is a leaf.
    pub closed spec fn wf(self) -> bool
        decreases self, 1nat,
    {
        if self.is_leaf {
            self.children@.len() == 0
        } else {
            self.children@.len() == 8 && Self::wf_seq(self.children@)
        }
    }

    /// Whether every tree of `s` is well formed with an octant index of at most 9.
    pub closed spec fn wf_seq(s: Seq<SVO>) -> bool
        decreases s, 0nat,
    {
        if s.len() == 0 {
            true
        } else {
            &&& Self::wf_seq(s.drop_last())
            &&& s.last().octant_index <= 9
            &&& (s.last().octant_index == EMPTY_OCTANT ==> s.last().is_leaf)
            &&& s.last().wf()
        }
    }

    /// The number of bytes that `pack_recursive` writes for this subtree: five per node.
    pub closed spec fn branch_size(self) -> nat
        decreases self, 1nat,
    {
        if self.is_leaf {
            5
        } else {
            5 + Self::branch_size_seq(self.children@)
        }
    }

    /// The sum of the branch sizes of a sequence of subtrees.
    pub closed spec fn branch_size_seq(s: Seq<SVO>) -> nat
        decreases s, 0nat,
    {
        if s.len() == 0 {
            0
        } else {
            Self::branch_size_seq(s.drop_last()) + s.last().branch_size()
        }
    }

    /// The depth-first encoding of this subtree: a leaf is the byte 0 and its four color
    /// bytes; a branch is the byte 100, its branch size (modulo 2^32) in four little-endian
    /// bytes, and the encodings of its children in order.
    pub closed spec fn packed(self) -> Seq<u8>
        decreases self, 1nat,
    {
        if self.is_leaf {
            seq![LEAF_MARKER] + self.color@
        } else {
            seq![BRANCH_MARKER] + le32((self.branch_size() % 0x1_0000_0000) as u32) + Self::packed_seq(
                self.children@,
            )
        }
    }

    /// The concatenated encodings of a sequence of subtrees.
    pub closed spec fn packed_seq(s: Seq<SVO>) -> Seq<u8>
        decreases s, 0nat,
    {
        if s.len() == 0 {
            seq![]
        } else {
            Self::packed_seq(s.drop_last()) + s.last().packed()
        }
    }

    /// The number of the first `n` trees of `s` whose octant index is not the empty octant.
    pub closed spec fn present_count(s: Seq<SVO>, n: int) -> nat
        decreases n,
    {
        if n <= 0 {
            0
        } else {
            Self::present_count(s, n - 1) + if s[n - 1].octant_index != EMPTY_OCTANT { 1nat } else { 0nat }
        }
    }

    /// The records that `pack_recursive_layer` writes for the nodes `layer` levels below
    /// this one: a leaf not at the empty octant is its octant index followed by its four
    /// color bytes; a branch is 100 plus its octant index, the number `n` of its first eight
    /// children that are not at the empty octant, and `4 * n` zero bytes.
    pub closed spec fn layer_bytes(self, layer: nat) -> Seq<u8>
        decreases self, 1nat,
    {
        if self.is_leaf {
            if layer == 0 && self.octant_index != EMPTY_OCTANT {
                seq![(LEAF_MARKER + self.octant_index) as u8] + self.color@
            } else {
                seq![]
            }
        } else if layer == 0 {
            let n = Self::present_count(self.children@, 8);
            seq![(BRANCH_MARKER + self.octant_index) as u8, n as u8] + Seq::new(4 * n, |i: int| 0u8)
        } else {
            Self::layer_bytes_seq(self.children@, (layer - 1) as nat)
        }
    }

    /// The concatenated layer records of a sequence of subtrees.
    pub closed spec fn layer_bytes_seq(s: Seq<SVO>, layer: nat) -> Seq<u8>
        decreases s, 0nat,
    {
        if s.len() == 0 {
            seq![]
        } else {
            Self::layer_bytes_seq(s.drop_last(), layer) + s.last().layer_bytes(layer)
        }
    }

    /// Whether `pack_recursive_layer` can write layer `layer` of this subtree: every branch
    /// at that layer has at least eight children and a marker `100 + octant` that fits in a byte.
    pub closed spec fn layer_packable(self, layer: nat) -> bool
        decreases self, 1nat,
    {
        if self.is_leaf {
            true
        } else if layer == 0 {
            self.children@.len() >= 8 && self.octant_index <= 155
        } else {
            Self::layer_packable_seq(self.children@, (layer - 1) as nat)
        }
    }

    /// Whether every tree of `s` can have layer `layer` written.
    pub closed spec fn layer_packable_seq(s: Seq<SVO>, layer: nat) -> bool
        decreases s, 0nat,
    {
        if s.len() == 0 {
            true
        } else {
            Self::layer_packable_seq(s.drop_last(), layer) && s.last().layer_packable(layer)
        }
    }

    /// The number of bytes of the depth-first encoding of this subtree.
    pub fn estimate_branch_size(&self) -> (r: usize)
        requires
            self.branch_size() <= usize::MAX,
        ensures
            r == self.branch_size(),
        decreases self,
    {
        if self.is_leaf {
            1 + 4
        } else {
            let mut size: usize = 1 + 4;
            let mut i: usize = 0;
            while i < self.children.len()
                invariant
                    !self.is_leaf,
                    self.branch_size() <= usize::MAX,
                    i <= self.children@.len(),
                    size == 5 + Self::branch_size_seq(self.children@.take(i as int)),
                decreases self.children@.len() - i,
            {
                proof {
                    Self::lemma_branch_size_take(self.children@, i as int + 1);
                    assert(self.children@.take(i as int + 1).drop_last() =~= self.children@.take(i as int));
                }
                let child = &self.children[i];
                size = size + child.estimate_branch_size();
                i = i + 1;
            }
            assert(self.children@.take(i as int) =~= self.children@);
            size
        }
    }

    /// Appends the depth-first encoding of this subtree to `packed_data`.
    pub fn pack_recursive(&self, packed_data: &mut Vec<u8>)
        requires
            self.branch_size() <= usize::MAX,
        ensures
            final(packed_data)@ == old(packed_data)@ + self.packed(),
        decreases self,
    {
        if self.is_leaf {
            packed_data.push(LEAF_MARKER);
            packed_data.extend_from_slice(self.color.as_slice());
        } else {
            packed_data.push(BRANCH_MARKER);
            let node_size = Self::estimate_branch_size(&self);
            let trunc = ((node_size as u64) % 0x1_0000_0000) as u32;
            let b = u32_le_bytes(trunc);
            packed_data.extend_from_slice(b.as_slice());
            let ghost head = old(packed_data)@ + seq![BRANCH_MARKER] + le32(trunc);
            assert(packed_data@ =~= head);
            let mut i: usize = 0;
            while i < self.children.len()
                invariant
                    !self.is_leaf,
                    self.branch_size() <= usize::MAX,
                    i <= self.children@.len(),
                    packed_data@ == head + Self::packed_seq(self.children@.take(i as int)),
                decreases self.children@.len() - i,
            {
                proof {
                    Self::lemma_branch_size_take(self.children@, i as int + 1);
                    assert(self.children@.take(i as int + 1).drop_last() =~= self.children@.take(i as int));
                }
                let child = &self.children[i];
                child.pack_recursive(packed_data);
                i = i + 1;
            }
            assert(self.children@.take(i as int) =~= self.children@);
            assert(packed_data@ =~= old(packed_data)@ + self.packed());
        }
    }

    /// Appends the records of the nodes `layer` levels below this one to `packed_data`.
    pub fn pack_recursive_layer(&self, packed_data: &mut Vec<u8>, layer: u32)
        requires
            self.layer_packable(layer as nat),
        ensures
            final(packed_data)@ == old(packed_data)@ + self.layer_bytes(layer as nat),
        decreases self,
    {
        if self.is_leaf {
            if layer == 0 && self.octant_index != EMPTY_OCTANT {
                packed_data.push(LEAF_MARKER + self.octant_index);
                packed_data.extend_from_slice(self.color.as_slice());
            }
            assert(packed_data@ =~= old(packed_data)@ + self.layer_bytes(layer as nat));
        } else {
            if layer == 0 {
                packed_data.push(BRANCH_MARKER + self.octant_index);
                let mut nn: u8 = 0;
                let mut i: usize = 0;
                while i < 8
                    invariant
                        i <= 8,
                        self.children@.len() >= 8,
                        nn == Self::present_count(self.children@, i as int),
                        nn <= i,
                    decreases 8 - i,
                {
                    if self.children[i].octant_index != EMPTY_OCTANT {
                        nn = nn + 1;
                    }
                    i = i + 1;
                }
                packed_data.push(nn);
                let ghost head = packed_data@;
                let mut j: u8 = 0;
                while j < nn
                    invariant
                        j <= nn,
                        packed_data@ == head + Seq::new(4 * j as nat, |k: int| 0u8),
                    decreases nn - j,
                {
                    packed_data.push(0);
                    packed_data.push(0);
                    packed_data.push(0);
                    packed_data.push(0);
                    j = j + 1;
                    assert(packed_data@ =~= head + Seq::new(4 * j as nat, |k: int| 0u8));
                }
                assert(packed_data@ =~= old(packed_data)@ + self.layer_bytes(layer as nat));
            } else {
                let ghost head = packed_data@;
                let mut i: usize = 0;
                while i < self.children.len()
                    invariant
                        !self.is_leaf,
                        layer > 0,
                        Self::layer_packable_seq(self.children@, (layer - 1) as nat),
                        i <= self.children@.len(),
                        head == old(packed_data)@,
                        packed_data@ == head + Self::layer_bytes_seq(self.children@.take(i as int), (layer - 1) as nat),
                    decreases self.children@.len() - i,
                {
                    proof {
                        Self::lemma_layer_packable_index(self.children@, (layer - 1) as nat, i as int);
                        assert(self.children@.take(i as int + 1).drop_last() =~= self.children@.take(i as int));
                    }
                    let child = &self.children[i];
                    child.pack_recursive_layer(packed_data, layer - 1);
                    i = i + 1;
                }
                assert(self.children@.take(i as int) =~= self.children@);
            }
        }
    }

    proof fn lemma_branch_size_take(s: Seq<SVO>, i: int)
        requires
            0 <= i <= s.len(),
        ensures
            Self::branch_size_seq(s.take(i)) <= Self::branch_size_seq(s),
            i > 0 ==> s[i - 1].branch_size() <= Self::branch_size_seq(s),
        decreases s.len() - i,
    {
        if i < s.len() {
            Self::lemma_branch_size_take(s, i + 1);
            assert(s.take(i + 1).drop_last() =~= s.take(i));
        } else {
            assert(s.take(i) =~= s);
        }
        if i > 0 {
            assert(s.take(i).drop_last() =~= s.take(i - 1));
        }
    }

    proof fn lemma_layer_packable_index(s: Seq<SVO>, layer: nat, i: int)
        requires
            0 <= i < s.len(),
            Self::layer_packable_seq(s, layer),
        ensures
            s[i].layer_packable(layer),
        decreases s.len(),
    {
        if i < s.len() - 1 {
            Self::lemma_layer_packable_index(s.drop_last(), layer, i);
        }
    }
}

/// The indices written into the slots of layer `i`: the record offsets of layer `i + 1`,
/// none for the deepest layer.
pub open spec fn layer_indices(t: SVO, levels: nat, i: nat) -> Seq<u32>
    decreases levels - i, 0nat,
{
    if i >= levels {
        seq![]
    } else {
        starts32(layer_chunk(t, levels, i + 1))
    }
}

/// The records of layer `i` of `t` with each branch slot holding the offset of the
/// matching record of layer `i + 1`.
pub open spec fn layer_chunk(t: SVO, levels: nat, i: nat) -> Seq<u8>
    decreases levels - i, 1nat,
{
    filled(t.layer_bytes(i), layer_indices(t, levels, i))
}

/// The header sum for chunk `j` (which holds layer `levels - j`): the sizes of chunks
/// `j` up to `levels - 1`, each taken as its length plus four, modulo 2^32.
pub open spec fn header_sum(t: SVO, levels: nat, j: nat) -> int
    decreases levels - j,
{
    if j >= levels {
        0
    } else {
        header_sum(t, levels, j + 1) + (layer_chunk(t, levels, (levels - j) as nat).len() + 4) % 0x1_0000_0000
    }
}

/// The header bytes for chunks `levels - 1` down to `j`.
pub open spec fn header_from(t: SVO, levels: nat, j: nat) -> Seq<u8>
    decreases levels - j,
{
    if j >= levels {
        seq![]
    } else {
        header_from(t, levels, j + 1) + le32(header_sum(t, levels, j) as u32)
    }
}

/// The chunks `levels - 1` down to `j`, concatenated.
pub open spec fn body_from(t: SVO, levels: nat, j: nat) -> Seq<u8>
    decreases levels - j,
{
    if j >= levels {
        seq![]
    } else {
        body_from(t, levels, j + 1) + layer_chunk(t, levels, (levels - j) as nat)
    }
}

/// The packed voxel data: a four-byte running size for each of the layers `1` to
/// `levels - 1`, then the filled records of the layers `1` to `levels`.
pub open spec fn packed_layers(t: SVO, levels: nat) -> Seq<u8> {
    header_from(t, levels, 1) + body_from(t, levels, 0)
}

/// Whether layer `i` of `t` can be written, filled with the offsets of layer `i + 1`,
/// walked, and stays well below the size limit.
pub open spec fn layer_ok(t: SVO, levels: nat, i: nat) -> bool {
    &&& t.layer_packable(i)
    &&& fill_ok(t.layer_bytes(i), 0)
    &&& slots(t.layer_bytes(i), 0).len() <= layer_indices(t, levels, i).len()
    &&& walk_ok(layer_chunk(t, levels, i), 0)
    &&& t.layer_bytes(i).len() + 1024 <= usize::MAX
}

/// Whether `pack_svo_layers` can pack `t` with `levels` levels: every layer can be written
/// and filled, every filled layer can be walked, the buffers stay well below the size
/// limit, and the header sums fit in 32 bits.
pub open spec fn pipeline_ok(t: SVO, levels: nat) -> bool {
    &&& levels < u32::MAX
    &&& forall|i: nat| i <= levels ==> #[trigger] layer_ok(t, levels, i)
    &&& forall|j: nat| 1 <= j < levels ==> #[trigger] header_sum(t, levels, j) <= u32::MAX
}

/// Packs the octree layer by layer, deepest first, filling each branch's slots with the
/// offsets of its children's records in the next layer, then lays out the running sizes
/// of layers `1` to `levels - 1` and the layers `1` to `levels`.
pub fn pack_svo_layers(svo: &SVO, levels: u32) -> (r: Vec<u8>)
    requires
        pipeline_ok(*svo, levels as nat),
    ensures
        r@ == packed_layers(*svo, levels as nat),
{
    match try_pack_svo_layers(svo, levels) {
        Some(v) => v,
        None => {
            assert(false);
            Vec::new()
        },
    }
}

impl SVO {
    /// Whether layer `layer` of this subtree can be written (`layer_packable`).
    pub fn check_layer_packable(&self, layer: u32) -> (r: bool)
        ensures
            r == self.layer_packable(layer as nat),
        decreases self,
    {
        if self.is_leaf {
            true
        } else if layer == 0 {
            self.children.len() >= 8 && self.octant_index <= 155
        } else {
            let mut i: usize = 0;
            while i < self.children.len()
                invariant
                    !self.is_leaf,
                    layer > 0,
                    i <= self.children@.len(),
                    Self::layer_packable_seq(self.children@.take(i as int), (layer - 1) as nat),
                decreases self.children@.len() - i,
            {
                assert(self.children@.take(i as int + 1).drop_last() =~= self.children@.take(i as int));
                if !self.children[i].check_layer_packable(layer - 1) {
                    proof {
                        if Self::layer_packable_seq(self.children@, (layer - 1) as nat) {
                            Self::lemma_layer_packable_index(self.children@, (layer - 1) as nat, i as int);
                        }
                    }
                    return false;
                }
                i = i + 1;
            }
            assert(self.children@.take(i as int) =~= self.children@);
            true
        }
    }
}

/// Packs the octree as `pack_svo_layers` does where that can be done, and gives `None`
/// exactly where it cannot (`pipeline_ok` fails: a layer cannot be written, filled or
/// walked, grows too large, or a header sum passes 32 bits).
pub fn try_pack_svo_layers(svo: &SVO, levels: u32) -> (r: Option<Vec<u8>>)
    ensures
        r is Some <==> pipeline_ok(*svo, levels as nat),
        r matches Some(v) ==> v@ == packed_layers(*svo, levels as nat),
{
    let ghost t = *svo;
    let ghost lv = levels as nat;
    if levels == u32::MAX {
        return None;
    }
    let mut datavec: Vec<Vec<u8>> = Vec::new();
    let mut indvec: Vec<u32> = Vec::new();
    let mut i: u32 = levels + 1;
    while i > 0
        invariant
            t == *svo,
            lv == levels as nat,
            levels < u32::MAX,
            i <= levels + 1,
            datavec@.len() == levels + 1 - i,
            forall|k: nat| i <= k <= levels ==> #[trigger] layer_ok(t, lv, k),
            forall|k: int|
                0 <= k < datavec@.len() ==> #[trigger] datavec@[k]@ == layer_chunk(t, lv, (lv - k) as nat),
            0 < i <= levels ==> indvec@ == layer_indices(t, lv, (i - 1) as nat),
            i == levels + 1 ==> indvec@ == Seq::<u32>::empty(),
        decreases i,
    {
        i -= 1;
        let ghost li = i as nat;
        assert(indvec@ == layer_indices(t, lv, li));
        if !svo.check_layer_packable(i) {
            assert(!layer_ok(t, lv, li));
            return None;
        }
        let mut dvec: Vec<u8> = Vec::new();
        svo.pack_recursive_layer(&mut dvec, i);
        assert(dvec@ =~= t.layer_bytes(li));
        if dvec.len() > usize::MAX - 1024 || !fill_fits(&dvec, indvec.len()) {
            assert(!layer_ok(t, lv, li));
            return None;
        }
        fill_indices(&mut dvec, indvec);
        assert(dvec@ == layer_chunk(t, lv, li));
        if !walk_fits(&dvec) {
            assert(!layer_ok(t, lv, li));
            return None;
        }
        assert(layer_ok(t, lv, li));
        indvec = compute_raw_data_indices(&mut dvec);
        assert(indvec@ =~= starts32(dvec@));
        assert(li > 0 ==> layer_indices(t, lv, (li - 1) as nat) == starts32(layer_chunk(t, lv, li)));
        datavec.push(dvec);
    }
    let mut data: Vec<u8> = Vec::new();
    let mut szn: u32 = 0;
    let mut j: u32 = levels;
    while j > 1
        invariant
            t == *svo,
            lv == levels as nat,
            levels < u32::MAX,
            forall|k: nat| k <= levels ==> #[trigger] layer_ok(t, lv, k),
            1 <= j <= levels || (j == levels && levels <= 1),
            forall|m: nat| j <= m < levels ==> #[trigger] header_sum(t, lv, m) <= u32::MAX,
            datavec@.len() == levels + 1,
            forall|k: int|
                0 <= k < datavec@.len() ==> #[trigger] datavec@[k]@ == layer_chunk(t, lv, (lv - k) as nat),
            szn == header_sum(t, lv, j as nat),
            data@ == header_from(t, lv, j as nat),
        decreases j,
    {
        j -= 1;
        let chunk_len = datavec[j as usize].len();
        assert(layer_ok(t, lv, (lv - j) as nat));
        assert(chunk_len == layer_chunk(t, lv, (lv - j) as nat).len());
        let add = ((chunk_len + 4) as u64 % 0x1_0000_0000) as u32;
        match szn.checked_add(add) {
            None => {
                assert(header_sum(t, lv, j as nat) > u32::MAX);
                return None;
            },
            Some(v) => {
                szn = v;
            },
        }
        let b = u32_le_bytes(szn);
        data.extend_from_slice(b.as_slice());
    }
    assert(pipeline_ok(t, lv));
    let ghost head = data@;
    assert(head == header_from(t, lv, 1));
    let mut j: u32 = levels;
    while j > 0
        invariant
            t == *svo,
            lv == levels as nat,
            j <= levels,
            datavec@.len() == levels + 1,
            forall|k: int|
                0 <= k < datavec@.len() ==> #[trigger] datavec@[k]@ == layer_chunk(t, lv, (lv - k) as nat),
            data@ == head + body_from(t, lv, j as nat),
        decreases j,
    {
        j -= 1;
        data.extend_from_slice(datavec[j as usize].as_slice());
    }
    Some(data)
}

impl SVO {
    /// A tree built by `build_tree_recursive` is well formed.
    pub proof fn lemma_build_wf(self, vs: Seq<Voxel>, lo: Ivec3, hi: Ivec3, level: nat, oct: u8)
        requires
            self.is_build(vs, lo, hi, level, oct),
        ensures
            self.wf(),
        decreases level,
    {
        if has_hit(vs, lo, hi) && level > 0 {
            let c = self.children@;
            assert forall|k: int| 0 <= k < 8 implies {
                &&& #[trigger] c[k].wf()
                &&& c[k].octant_index <= 9
                &&& (c[k].octant_index == EMPTY_OCTANT ==> c[k].is_leaf)
            } by {
                assert(self.child_is_build(vs, lo, hi, level, k));
                c[k].lemma_build_wf(vs, octant_lo(lo, hi, k), octant_hi(lo, hi, k), (level - 1) as nat, k as u8);
            }
            Self::lemma_wf_seq_all(c);
        }
    }

    proof fn lemma_wf_seq_all(s: Seq<SVO>)
        requires
            forall|k: int|
                0 <= k < s.len() ==> {
                    &&& #[trigger] s[k].wf()
                    &&& s[k].octant_index <= 9
                    &&& (s[k].octant_index == EMPTY_OCTANT ==> s[k].is_leaf)
                },
        ensures
            Self::wf_seq(s),
        decreases s.len(),
    {
        if s.len() > 0 {
            let t = s.drop_last();
            assert forall|k: int| 0 <= k < t.len() implies {
                &&& #[trigger] t[k].wf()
                &&& t[k].octant_index <= 9
                &&& (t[k].octant_index == EMPTY_OCTANT ==> t[k].is_leaf)
            } by {
                assert(t[k] == s[k]);
            }
            Self::lemma_wf_seq_all(t);
            assert(s[s.len() - 1].wf());
        }
    }

    /// The depth-first encoding of a subtree is exactly `estimate_branch_size` bytes long.
    pub proof fn lemma_packed_len(self)
        ensures
            self.packed().len() == self.branch_size(),
        decreases self, 1nat,
    {
        if !self.is_leaf {
            Self::lemma_packed_seq_len(self.children@);
        }
    }

    proof fn lemma_packed_seq_len(s: Seq<SVO>)
        ensures
            Self::packed_seq(s).len() == Self::branch_size_seq(s),
        decreases s, 0nat,
    {
        if s.len() > 0 {
            Self::lemma_packed_seq_len(s.drop_last());
            s.last().lemma_packed_len();
        }
    }
}

impl SVO {
    /// The nodes `i` levels below this one that `pack_recursive_layer` writes a record for,
    /// in depth-first order: every branch, and every leaf not at the empty octant.
    pub closed spec fn nodes_at(self, i: nat) -> Seq<SVO>
        decreases self, 1nat,
    {
        if i == 0 {
            if self.is_leaf && self.octant_index == EMPTY_OCTANT {
                seq![]
            } else {
                seq![self]
            }
        } else if self.is_leaf {
            seq![]
        } else {
            Self::nodes_at_seq(self.children@, (i - 1) as nat)
        }
    }

    /// The nodes `i` levels below each tree of `s`, concatenated.
    pub closed spec fn nodes_at_seq(s: Seq<SVO>, i: nat) -> Seq<SVO>
        decreases s, 0nat,
    {
        if s.len() == 0 {
            seq![]
        } else {
            Self::nodes_at_seq(s.drop_last(), i) + s.last().nodes_at(i)
        }
    }

    /// The concatenated single-node records of `ns`.
    pub closed spec fn records(ns: Seq<SVO>) -> Seq<u8>
        decreases ns.len(),
    {
        if ns.len() == 0 {
            seq![]
        } else {
            Self::records(ns.drop_last()) + ns.last().layer_bytes(0)
        }
    }

    /// The children of a branch that get a record one level down.
    pub closed spec fn recorded_kids(self) -> Seq<SVO> {
        if self.is_leaf {
            seq![]
        } else {
            Self::nodes_at_seq(self.children@, 0)
        }
    }

    /// The recorded children of the nodes of `ns`, concatenated.
    pub closed spec fn flat(ns: Seq<SVO>) -> Seq<SVO>
        decreases ns.len(),
    {
        if ns.len() == 0 {
            seq![]
        } else {
            Self::flat(ns.drop_last()) + ns.last().recorded_kids()
        }
    }

    /// The total number of slots of the records of `ns`.
    pub closed spec fn slot_total(ns: Seq<SVO>) -> nat
        decreases ns.len(),
    {
        if ns.len() == 0 {
            0
        } else {
            record_slots(ns[0].layer_bytes(0)) + Self::slot_total(ns.drop_first())
        }
    }

    /// Whether this node's layer record reads back as a record of its kind: a leaf's octant
    /// index stays below the branch marker, a branch's marker `100 + octant` fits in a byte.
    pub closed spec fn layer_root(self) -> bool {
        if self.is_leaf {
            self.octant_index < BRANCH_MARKER
        } else {
            self.octant_index <= 155
        }
    }

    /// Whether node `n` can stand in a layer: well formed, with a record of its own kind, and
    /// not an empty leaf.
    pub closed spec fn layer_node(self) -> bool {
        &&& self.wf()
        &&& self.layer_root()
        &&& !(self.is_leaf && self.octant_index == EMPTY_OCTANT)
    }

    proof fn lemma_singleton(x: SVO)
        ensures
            Self::records(seq![x]) == x.layer_bytes(0),
            Self::flat(seq![x]) == x.recorded_kids(),
            Self::records(Seq::<SVO>::empty()) == Seq::<u8>::empty(),
            Self::flat(Seq::<SVO>::empty()) == Seq::<SVO>::empty(),
    {
        let e = Seq::<SVO>::empty();
        assert(seq![x].drop_last() =~= e);
        assert(seq![x].last() == x);
        assert(Self::records(e) =~= Seq::<u8>::empty());
        assert(Self::flat(e) =~= Seq::<SVO>::empty());
        assert(Self::records(seq![x]) =~= x.layer_bytes(0));
        assert(Self::flat(seq![x]) =~= x.recorded_kids());
    }

    proof fn lemma_records_concat(a: Seq<SVO>, b: Seq<SVO>)
        ensures
            Self::records(a + b) == Self::records(a) + Self::records(b),
        decreases b.len(),
    {
        if b.len() == 0 {
            assert(a + b =~= a);
        } else {
            Self::lemma_records_concat(a, b.drop_last());
            assert((a + b).drop_last() =~= a + b.drop_last());
        }
    }

    proof fn lemma_flat_concat(a: Seq<SVO>, b: Seq<SVO>)
        ensures
            Self::flat(a + b) == Self::flat(a) + Self::flat(b),
        decreases b.len(),
    {
        if b.len() == 0 {
            assert(a + b =~= a);
        } else {
            Self::lemma_flat_concat(a, b.drop_last());
            assert((a + b).drop_last() =~= a + b.drop_last());
        }
    }

    /// The records of layer `i` of a subtree are the single-node records of its nodes at
    /// depth `i`, in depth-first order.
    pub proof fn lemma_layer_records(self, i: nat)
        ensures
            self.layer_bytes(i) == Self::records(self.nodes_at(i)),
        decreases self, 1nat,
    {
        Self::lemma_singleton(self);
        if i == 0 {
            if self.is_leaf && self.octant_index == EMPTY_OCTANT {
                assert(self.layer_bytes(0) =~= Seq::<u8>::empty());
            }
        } else if !self.is_leaf {
            Self::lemma_layer_records_seq(self.children@, (i - 1) as nat);
        } else {
            assert(self.layer_bytes(i) =~= Seq::<u8>::empty());
        }
    }

    proof fn lemma_layer_records_seq(s: Seq<SVO>, i: nat)
        ensures
            Self::layer_bytes_seq(s, i) == Self::records(Self::nodes_at_seq(s, i)),
        decreases s, 0nat,
    {
        if s.len() > 0 {
            Self::lemma_layer_records_seq(s.drop_last(), i);
            s.last().lemma_layer_records(i);
            Self::lemma_records_concat(Self::nodes_at_seq(s.drop_last(), i), s.last().nodes_at(i));
        }
    }

    /// The nodes one layer further down are the recorded children of the nodes of this
    /// layer, in order: the slots of a layer and the records of the next match up in order.
    pub proof fn lemma_next_layer(self, i: nat)
        ensures
            self.nodes_at(i + 1) == Self::flat(self.nodes_at(i)),
        decreases self, 1nat,
    {
        Self::lemma_singleton(self);
        if i == 0 {
        } else if !self.is_leaf {
            Self::lemma_next_layer_seq(self.children@, (i - 1) as nat);
        }
    }

    proof fn lemma_next_layer_seq(s: Seq<SVO>, i: nat)
        ensures
            Self::nodes_at_seq(s, i + 1) == Self::flat(Self::nodes_at_seq(s, i)),
        decreases s, 0nat,
    {
        if s.len() > 0 {
            Self::lemma_next_layer_seq(s.drop_last(), i);
            s.last().lemma_next_layer(i);
            Self::lemma_flat_concat(Self::nodes_at_seq(s.drop_last(), i), s.last().nodes_at(i));
        }
    }

    proof fn lemma_layer_node_record(self)
        requires
            self.layer_node(),
        ensures
            is_record(self.layer_bytes(0)),
            record_slots(self.layer_bytes(0)) == self.recorded_kids().len(),
    {
        let r = self.layer_bytes(0);
        if self.is_leaf {
            assert(r.len() == 5);
            assert(r[0] == self.octant_index);
        } else {
            let n = Self::present_count(self.children@, 8);
            Self::lemma_present_count_bound(self.children@, 8);
            assert(r[0] == 100 + self.octant_index);
            assert(r[1] == n);
            Self::lemma_kids_count(self.children@);
            assert(self.children@.len() == 8);
        }
    }

    proof fn lemma_present_count_bound(s: Seq<SVO>, n: int)
        requires
            0 <= n,
        ensures
            Self::present_count(s, n) <= n,
        decreases n,
    {
        if n > 0 {
            Self::lemma_present_count_bound(s, n - 1);
        }
    }

    proof fn lemma_present_count_prefix(s: Seq<SVO>, t: Seq<SVO>, n: int)
        requires
            0 <= n <= s.len(),
            n <= t.len(),
            forall|k: int| 0 <= k < n ==> s[k] == t[k],
        ensures
            Self::present_count(s, n) == Self::present_count(t, n),
        decreases n,
    {
        if n > 0 {
            Self::lemma_present_count_prefix(s, t, n - 1);
        }
    }

    proof fn lemma_kids_count(s: Seq<SVO>)
        requires
            Self::wf_seq(s),
        ensures
            Self::nodes_at_seq(s, 0).len() == Self::present_count(s, s.len() as int),
        decreases s.len(),
    {
        if s.len() > 0 {
            let t = s.drop_last();
            Self::lemma_kids_count(t);
            assert forall|k: int| 0 <= k < t.len() implies s[k] == t[k] by {}
            Self::lemma_present_count_prefix(s, t, t.len() as int);
            let l = s.last();
            assert(l == s[s.len() - 1]);
            assert(Self::present_count(s, s.len() as int) == Self::present_count(s, t.len() as int) + if l.octant_index
                != EMPTY_OCTANT { 1nat } else { 0nat });
            if l.is_leaf && l.octant_index == EMPTY_OCTANT {
                assert(l.nodes_at(0) =~= Seq::<SVO>::empty());
            } else {
                assert(l.nodes_at(0).len() == 1);
            }
        } else {
            assert(Self::nodes_at_seq(s, 0) =~= Seq::<SVO>::empty());
        }
    }

    proof fn lemma_layer_nodes(self, i: nat)
        requires
            self.wf(),
            self.layer_root(),
        ensures
            forall|k: int| 0 <= k < self.nodes_at(i).len() ==> #[trigger] self.nodes_at(i)[k].layer_node(),
        decreases self, 1nat,
    {
        if i == 0 {
            if !(self.is_leaf && self.octant_index == EMPTY_OCTANT) {
                assert(self.nodes_at(i) =~= seq![self]);
                assert(self.layer_node());
            } else {
                assert(self.nodes_at(i) =~= Seq::<SVO>::empty());
            }
        } else if !self.is_leaf {
            Self::lemma_layer_nodes_seq(self.children@, (i - 1) as nat);
            assert(self.nodes_at(i) == Self::nodes_at_seq(self.children@, (i - 1) as nat));
        } else {
            assert(self.nodes_at(i) =~= Seq::<SVO>::empty());
        }
    }

    proof fn lemma_layer_nodes_seq(s: Seq<SVO>, i: nat)
        requires
            Self::wf_seq(s),
        ensures
            forall|k: int|
                0 <= k < Self::nodes_at_seq(s, i).len() ==> #[trigger] Self::nodes_at_seq(s, i)[k].layer_node(),
        decreases s, 0nat,
    {
        if s.len() > 0 {
            let a = Self::nodes_at_seq(s.drop_last(), i);
            let b = s.last().nodes_at(i);
            Self::lemma_layer_nodes_seq(s.drop_last(), i);
            s.last().lemma_layer_nodes(i);
            assert forall|k: int|
                0 <= k < Self::nodes_at_seq(s, i).len() implies #[trigger] Self::nodes_at_seq(s, i)[k].layer_node() by {
                if k < a.len() {
                    assert(Self::nodes_at_seq(s, i)[k] == a[k]);
                } else {
                    assert(Self::nodes_at_seq(s, i)[k] == b[k - a.len()]);
                }
            }
        }
    }

    /// The records of layer nodes parse back as exactly one record per node, with one slot
    /// per recorded child.
    proof fn lemma_parse_records(ns: Seq<SVO>)
        requires
            forall|k: int| 0 <= k < ns.len() ==> #[trigger] ns[k].layer_node(),
        ensures
            walk_ok(Self::records(ns), 0),
            fill_ok(Self::records(ns), 0),
            record_starts(Self::records(ns), 0).len() == ns.len(),
            slots(Self::records(ns), 0).len() == Self::flat(ns).len(),
        decreases ns.len(),
    {
        if ns.len() == 0 {
            assert(ns =~= Seq::<SVO>::empty());
            Self::lemma_singleton(ns[0]);
        } else {
            let h = seq![ns[0]];
            let t = ns.drop_first();
            assert(h + t =~= ns);
            assert forall|k: int| 0 <= k < t.len() implies #[trigger] t[k].layer_node() by {
                assert(t[k] == ns[k + 1]);
            }
            Self::lemma_parse_records(t);
            Self::lemma_records_concat(h, t);
            Self::lemma_flat_concat(h, t);
            Self::lemma_singleton(ns[0]);
            assert(ns[0].layer_node());
            ns[0].lemma_layer_node_record();
            lemma_record_prefix(ns[0].layer_bytes(0), Self::records(t));
        }
    }

    /// In a well-formed tree whose root is a leaf with an octant index below 100 or a branch
    /// with one of at most 155, every layer can be walked and filled, and layer `i` has
    /// exactly as many slots as layer `i + 1` has records.
    pub proof fn lemma_layer_counts(self, i: nat)
        requires
            self.wf(),
            self.layer_root(),
        ensures
            walk_ok(self.layer_bytes(i), 0),
            fill_ok(self.layer_bytes(i), 0),
            record_starts(self.layer_bytes(i), 0).len() == self.nodes_at(i).len(),
            slots(self.layer_bytes(i), 0).len() == record_starts(self.layer_bytes(i + 1), 0).len(),
    {
        self.lemma_layer_records(i);
        self.lemma_layer_records(i + 1);
        self.lemma_layer_nodes(i);
        self.lemma_layer_nodes(i + 1);
        self.lemma_next_layer(i);
        Self::lemma_parse_records(self.nodes_at(i));
        Self::lemma_parse_records(self.nodes_at(i + 1));
    }
}

impl SVO {
    proof fn lemma_nodes_at_seq_empty(s: Seq<SVO>, i: nat)
        requires
            forall|k: int| 0 <= k < s.len() ==> #[trigger] s[k].nodes_at(i) == Seq::<SVO>::empty(),
        ensures
            Self::nodes_at_seq(s, i) == Seq::<SVO>::empty(),
        decreases s.len(),
    {
        if s.len() > 0 {
            Self::lemma_nodes_at_seq_empty(s.drop_last(), i);
            assert(s.last() == s[s.len() - 1]);
            assert(s[s.len() - 1].nodes_at(i) == Seq::<SVO>::empty());
            assert(Self::nodes_at_seq(s, i) =~= Seq::<SVO>::empty());
        } else {
            assert(Self::nodes_at_seq(s, i) =~= Seq::<SVO>::empty());
        }
    }

    /// A tree built with `level` levels has no nodes deeper than `level`.
    pub proof fn lemma_build_depth(self, vs: Seq<Voxel>, lo: Ivec3, hi: Ivec3, level: nat, oct: u8, i: nat)
        requires
            self.is_build(vs, lo, hi, level, oct),
            i > level,
        ensures
            self.nodes_at(i) == Seq::<SVO>::empty(),
        decreases level,
    {
        if has_hit(vs, lo, hi) && level > 0 {
            let c = self.children@;
            assert forall|k: int| 0 <= k < c.len() implies #[trigger] c[k].nodes_at((i - 1) as nat) == Seq::<SVO>::empty() by {
                assert(self.child_is_build(vs, lo, hi, level, k));
                c[k].lemma_build_depth(vs, octant_lo(lo, hi, k), octant_hi(lo, hi, k), (level - 1) as nat, k as u8, (i - 1) as nat);
            }
            Self::lemma_nodes_at_seq_empty(c, (i - 1) as nat);
        } else {
            assert(self.nodes_at(i) =~= Seq::<SVO>::empty());
        }
    }

    proof fn lemma_built_root(self, vs: Seq<Voxel>, lo: Ivec3, hi: Ivec3, levels: nat, oct: u8)
        requires
            self.is_build(vs, lo, hi, levels, oct),
            built_root_ok(vs, lo, hi, levels, oct),
        ensures
            self.layer_root(),
            self.octant() <= 155,
    {
    }

    /// Every layer of a well-formed tree whose root octant index is at most 155 can be written.
    pub proof fn lemma_wf_packable(self, i: nat)
        requires
            self.wf(),
            self.octant() <= 155,
        ensures
            self.layer_packable(i),
        decreases self, 1nat,
    {
        if !self.is_leaf && i > 0 {
            Self::lemma_wf_packable_seq(self.children@, (i - 1) as nat);
        }
    }

    proof fn lemma_wf_packable_seq(s: Seq<SVO>, i: nat)
        requires
            Self::wf_seq(s),
        ensures
            Self::layer_packable_seq(s, i),
        decreases s, 0nat,
    {
        if s.len() > 0 {
            Self::lemma_wf_packable_seq(s.drop_last(), i);
            s.last().lemma_wf_packable(i);
        }
    }

    proof fn lemma_chunk_ok(self, levels: nat, i: nat)
        requires
            self.wf(),
            self.layer_root(),
            i <= levels,
            self.nodes_at(levels + 1) == Seq::<SVO>::empty(),
        ensures
            fill_ok(self.layer_bytes(i), 0),
            slots(self.layer_bytes(i), 0).len() == layer_indices(self, levels, i).len(),
            walk_ok(layer_chunk(self, levels, i), 0),
            record_starts(layer_chunk(self, levels, i), 0) == record_starts(self.layer_bytes(i), 0),
        decreases levels - i,
    {
        self.lemma_layer_counts(i);
        if i == levels {
            self.lemma_layer_counts(i + 1);
        } else {
            self.lemma_chunk_ok(levels, i + 1);
            assert(layer_indices(self, levels, i) == starts32(layer_chunk(self, levels, i + 1)));
        }
        lemma_fill_keeps_records(self.layer_bytes(i), layer_indices(self, levels, i));
    }

    /// The octree that `build_tree_recursive` makes with `levels` levels can always be packed
    /// by `pack_svo_layers` when its root record reads back (see `built_root_ok`), given that
    /// its layers stay below the size limit and its header sums fit in 32 bits.
    pub proof fn lemma_built_tree_packs(self, vs: Seq<Voxel>, lo: Ivec3, hi: Ivec3, levels: nat, oct: u8)
        requires
            self.is_build(vs, lo, hi, levels, oct),
            built_root_ok(vs, lo, hi, levels, oct),
            levels < u32::MAX,
            forall|i: nat| i <= levels ==> #[trigger] self.layer_bytes(i).len() + 1024 <= usize::MAX,
            forall|j: nat| 1 <= j < levels ==> #[trigger] header_sum(self, levels, j) <= u32::MAX,
        ensures
            pipeline_ok(self, levels),
    {
        self.lemma_build_wf(vs, lo, hi, levels, oct);
        self.lemma_build_depth(vs, lo, hi, levels, oct, levels + 1);
        self.lemma_built_root(vs, lo, hi, levels, oct);
        assert forall|i: nat| i <= levels implies #[trigger] layer_ok(self, levels, i) by {
            self.lemma_wf_packable(i);
            self.lemma_chunk_ok(levels, i);
        }
    }

    /// In the packed octree of a built tree whose root record reads back (see
    /// `built_root_ok`), slot `k` of layer `i` holds the offset of record `k` of layer
    /// `i + 1`, and layer `i` has as many slots as layer `i + 1` has records.
    pub proof fn lemma_layer_links(self, vs: Seq<Voxel>, lo: Ivec3, hi: Ivec3, levels: nat, oct: u8, i: nat, k: int)
        requires
            self.is_build(vs, lo, hi, levels, oct),
            built_root_ok(vs, lo, hi, levels, oct),
            i < levels,
            0 <= k < slots(self.layer_bytes(i), 0).len(),
        ensures
            slots(self.layer_bytes(i), 0).len() == record_starts(layer_chunk(self, levels, i + 1), 0).len(),
            from_le32(slot_bytes(layer_chunk(self, levels, i), slots(self.layer_bytes(i), 0)[k])) == record_starts(
                layer_chunk(self, levels, i + 1),
                0,
            )[k] as u32,
    {
        self.lemma_build_wf(vs, lo, hi, levels, oct);
        self.lemma_build_depth(vs, lo, hi, levels, oct, levels + 1);
        self.lemma_built_root(vs, lo, hi, levels, oct);
        self.lemma_chunk_ok(levels, i);
        self.lemma_chunk_ok(levels, i + 1);
        let idx = layer_indices(self, levels, i);
        assert(idx == starts32(layer_chunk(self, levels, i + 1)));
        lemma_fill_readback(self.layer_bytes(i), idx, k);
    }
}

fn find_first(voxels: &Vec<Voxel>, lo: Ivec3, hi: Ivec3) -> (r: Option<usize>)
    ensures
        r is None <==> !has_hit(voxels@, lo, hi),
        r matches Some(k) ==> is_first_hit(voxels@, lo, hi, k as int) && k == first_hit(voxels@, lo, hi),
{
    let mut k: usize = 0;
    while k < voxels.len()
        invariant
            k <= voxels@.len(),
            forall|j: int| 0 <= j < k ==> !#[trigger] in_box(voxels@[j].pos, lo, hi),
        decreases voxels@.len() - k,
    {
        let p = voxels[k].pos;
        if lo.x <= p.x && p.x <= hi.x && lo.y <= p.y && p.y <= hi.y && lo.z <= p.z && p.z <= hi.z {
            assert(is_first_hit(voxels@, lo, hi, k as int));
            proof {
                lemma_first_hit_unique(voxels@, lo, hi, k as int);
            }
            return Some(k);
        }
        k = k + 1;
    }
    None
}

proof fn lemma_first_hit_unique(vs: Seq<Voxel>, lo: Ivec3, hi: Ivec3, k: int)
    requires
        is_first_hit(vs, lo, hi, k),
    ensures
        first_hit(vs, lo, hi) == k,
        has_hit(vs, lo, hi),
{
    let c = first_hit(vs, lo, hi);
    assert(is_first_hit(vs, lo, hi, c));
    if c < k {
        assert(!in_box(vs[c].pos, lo, hi));
    } else if c > k {
        assert(!in_box(vs[k].pos, lo, hi));
    }
}

fn octant_box(lo: Ivec3, hi: Ivec3, m: Ivec3, k: u8) -> (r: (Ivec3, Ivec3))
    requires
        k < 8,
        m == mid(lo, hi),
    ensures
        r.0 == octant_lo(lo, hi, k as int),
        r.1 == octant_hi(lo, hi, k as int),
{
    let bx = k % 2 == 1;
    let by = (k / 2) % 2 == 1;
    let bz = (k / 4) % 2 == 1;
    (
        Ivec3 { x: if bx { m.x } else { lo.x }, y: if by { m.y } else { lo.y }, z: if bz { m.z } else { lo.z } },
        Ivec3 { x: if bx { hi.x } else { m.x }, y: if by { hi.y } else { m.y }, z: if bz { hi.z } else { m.z } },
    )
}

/// The most nodes a tree built with `level` levels can have: one, and eight subtrees of
/// one level less.
pub open spec fn node_bound(level: nat) -> nat
    decreases level,
{
    if level == 0 {
        1
    } else {
        1 + 8 * node_bound((level - 1) as nat)
    }
}

impl SVO {
    /// Whether this node is a leaf.
    pub closed spec fn leaf(self) -> bool {
        self.is_leaf
    }

    /// The children of this node.
    pub closed spec fn kids(self) -> Seq<SVO> {
        self.children@
    }

    /// The color of this node.
    pub closed spec fn color_bytes(self) -> Seq<u8> {
        self.color@
    }

    /// The number of children of this node.
    pub fn child_count(&self) -> (r: usize)
        ensures
            r == self.kids().len(),
    {
        self.children.len()
    }

    /// What `build_tree_recursive` makes, one level at a time: a box without a voxel gives
    /// a black leaf at the empty octant 9; a box with a voxel at level 0 gives a leaf of the
    /// first such voxel's color at octant `oct`; any other box gives a black branch at octant
    /// `oct` whose eight children are the trees built for the octants of the box, child `k`
    /// at octant `k`. So a child is at octant 9 exactly when its box holds no voxel, and is
    /// then a black leaf.
    pub proof fn lemma_build_shape(self, vs: Seq<Voxel>, lo: Ivec3, hi: Ivec3, level: nat, oct: u8)
        requires
            self.is_build(vs, lo, hi, level, oct),
        ensures
            self.wf(),
            !has_hit(vs, lo, hi) ==> {
                &&& self.leaf()
                &&& self.color_bytes() == seq![0u8, 0u8, 0u8, 0u8]
                &&& self.kids().len() == 0
                &&& self.octant() == EMPTY_OCTANT
            },
            has_hit(vs, lo, hi) && level == 0 ==> {
                &&& self.leaf()
                &&& self.color_bytes() == vs[first_hit(vs, lo, hi)].color@
                &&& self.kids().len() == 0
                &&& self.octant() == oct
            },
            has_hit(vs, lo, hi) && level > 0 ==> {
                &&& !self.leaf()
                &&& self.color_bytes() == seq![0u8, 0u8, 0u8, 0u8]
                &&& self.kids().len() == 8
                &&& self.octant() == oct
                &&& forall|k: int|
                    0 <= k < 8 ==> (#[trigger] self.kids()[k]).is_build(
                        vs,
                        octant_lo(lo, hi, k),
                        octant_hi(lo, hi, k),
                        (level - 1) as nat,
                        k as u8,
                    )
            },
    {
        self.lemma_build_wf(vs, lo, hi, level, oct);
        if has_hit(vs, lo, hi) && level > 0 {
            assert forall|k: int| 0 <= k < 8 implies (#[trigger] self.kids()[k]).is_build(
                vs,
                octant_lo(lo, hi, k),
                octant_hi(lo, hi, k),
                (level - 1) as nat,
                k as u8,
            ) by {
                assert(self.child_is_build(vs, lo, hi, level, k));
            }
        }
    }

    /// The sizes and encodings, one level at a time: a leaf takes five bytes, a leaf marker
    /// and its color; a branch takes five bytes plus its children's, a branch marker, its
    /// size in four little-endian bytes, and its children's encodings; its layer record is
    /// `100 + octant`, the count of its children not at the empty octant, and four zero bytes
    /// for each.
    pub proof fn lemma_node_unfold(self, layer: nat)
        ensures
            self.leaf() ==> {
                &&& self.branch_size() == 5
                &&& self.packed() == seq![LEAF_MARKER] + self.color_bytes()
                &&& self.layer_bytes(layer) == (if layer == 0 && self.octant() != EMPTY_OCTANT {
                    seq![(LEAF_MARKER + self.octant()) as u8] + self.color_bytes()
                } else {
                    Seq::<u8>::empty()
                })
            },
            !self.leaf() ==> {
                &&& self.branch_size() == 5 + Self::branch_size_seq(self.kids())
                &&& self.packed() == seq![BRANCH_MARKER] + le32((self.branch_size() % 0x1_0000_0000) as u32)
                    + Self::packed_seq(self.kids())
                &&& layer == 0 ==> self.layer_bytes(layer) == seq![
                    (BRANCH_MARKER + self.octant()) as u8,
                    Self::present_count(self.kids(), 8) as u8,
                ] + Seq::new(4 * Self::present_count(self.kids(), 8), |i: int| 0u8)
                &&& layer > 0 ==> self.layer_bytes(layer) == Self::layer_bytes_seq(self.kids(), (layer - 1) as nat)
            },
    {
    }

    /// The sums over a sequence of subtrees, one tree at a time: nothing for no trees, and
    /// for more the sum over all but the last followed by the last.
    pub proof fn lemma_seq_unfold(s: Seq<SVO>, layer: nat)
        ensures
            s.len() == 0 ==> Self::branch_size_seq(s) == 0 && Self::packed_seq(s) == Seq::<u8>::empty()
                && Self::layer_bytes_seq(s, layer) == Seq::<u8>::empty(),
            s.len() > 0 ==> {
                &&& Self::branch_size_seq(s) == Self::branch_size_seq(s.drop_last()) + s.last().branch_size()
                &&& Self::packed_seq(s) == Self::packed_seq(s.drop_last()) + s.last().packed()
                &&& Self::layer_bytes_seq(s, layer) == Self::layer_bytes_seq(s.drop_last(), layer) + s.last().layer_bytes(layer)
            },
            Self::present_count(s, 0) == 0,
            forall|n: int|
                0 < n <= s.len() ==> #[trigger] Self::present_count(s, n) == Self::present_count(s, n - 1) + (if s[n
                    - 1].octant() != EMPTY_OCTANT { 1nat } else { 0nat }),
    {
    }

    proof fn lemma_branch_size_seq_bound(s: Seq<SVO>, b: nat)
        requires
            forall|k: int| 0 <= k < s.len() ==> #[trigger] s[k].branch_size() <= b,
        ensures
            Self::branch_size_seq(s) <= s.len() * b,
        decreases s.len(),
    {
        if s.len() == 0 {
            assert(s.len() * b == 0) by (nonlinear_arith)
                requires
                    s.len() == 0,
            ;
        } else {
            let t = s.drop_last();
            assert forall|k: int| 0 <= k < t.len() implies #[trigger] t[k].branch_size() <= b by {
                assert(t[k] == s[k]);
            }
            Self::lemma_branch_size_seq_bound(t, b);
            assert(s.last() == s[s.len() - 1]);
            assert(s[s.len() - 1].branch_size() <= b);
            assert(Self::branch_size_seq(s) == Self::branch_size_seq(t) + s.last().branch_size());
            assert(t.len() * b + b == s.len() * b) by (nonlinear_arith)
                requires
                    t.len() + 1 == s.len(),
            ;
        }
    }

    /// A tree built with `level` levels takes at most five bytes for each of the
    /// `node_bound(level)` nodes it can have, so `estimate_branch_size` and `pack_recursive`
    /// can be called on it whenever `5 * node_bound(level)` fits in a `usize`, and on any
    /// leaf.
    pub proof fn lemma_branch_size_bound(self, vs: Seq<Voxel>, lo: Ivec3, hi: Ivec3, level: nat, oct: u8)
        requires
            self.is_build(vs, lo, hi, level, oct),
        ensures
            self.branch_size() <= 5 * node_bound(level),
            self.leaf() ==> self.branch_size() == 5,
        decreases level,
    {
        if has_hit(vs, lo, hi) && level > 0 {
            let c = self.children@;
            let b = 5 * node_bound((level - 1) as nat);
            assert forall|k: int| 0 <= k < c.len() implies #[trigger] c[k].branch_size() <= b by {
                assert(self.child_is_build(vs, lo, hi, level, k));
                c[k].lemma_branch_size_bound(vs, octant_lo(lo, hi, k), octant_hi(lo, hi, k), (level - 1) as nat, k as u8);
            }
            Self::lemma_branch_size_seq_bound(c, b);
        }
    }
}

/// Whether `p` lies in the closed part of the box from `lo` to `hi` that octant `k` covers:
/// on each axis the half from the midpoint up when the axis's bit of `k` is set (bit 0
/// for x, bit 1 for y, bit 2 for z), the half up to the midpoint otherwise, the midpoint
/// being the coordinate sum halved toward zero.
pub open spec fn in_octant(p: Ivec3, lo: Ivec3, hi: Ivec3, k: int) -> bool {
    let mx = div_trunc(lo.x + hi.x, 2);
    let my = div_trunc(lo.y + hi.y, 2);
    let mz = div_trunc(lo.z + hi.z, 2);
    &&& in_box(p, lo, hi)
    &&& if k % 2 == 1 { mx <= p.x } else { p.x <= mx }
    &&& if (k / 2) % 2 == 1 { my <= p.y } else { p.y <= my }
    &&& if (k / 4) % 2 == 1 { mz <= p.z } else { p.z <= mz }
}

impl SVO {
    /// Where `build_tree_recursive` puts the voxels of a box it splits: child `k` of the
    /// branch holds a voxel (and so has octant index `k` rather than the empty 9) exactly
    /// when some voxel lies in the part of the box that octant `k` covers (`in_octant`),
    /// and the voxels of the upper x half go to the odd children, those of the upper y half
    /// to children 2, 3, 6, 7, those of the upper z half to children 4 to 7.
    pub proof fn lemma_child_regions(self, vs: Seq<Voxel>, lo: Ivec3, hi: Ivec3, level: nat, oct: u8)
        requires
            self.is_build(vs, lo, hi, level, oct),
            build_ok(vs, lo, hi, level),
            has_hit(vs, lo, hi),
            level > 0,
        ensures
            self.kids().len() == 8,
            forall|k: int, i: int|
                0 <= k < 8 && 0 <= i < vs.len() && #[trigger] in_octant(vs[i].pos, lo, hi, k)
                    ==> (#[trigger] self.kids()[k]).octant() == k as u8,
            forall|k: int|
                0 <= k < 8 ==> ((#[trigger] self.kids()[k]).octant() == k as u8 <==> exists|i: int|
                    0 <= i < vs.len() && #[trigger] in_octant(vs[i].pos, lo, hi, k)),
    {
        self.lemma_build_shape(vs, lo, hi, level, oct);
        assert(mid_ok(lo, hi));
        assert(-0x8000_0000 <= lo.x + hi.x < 0x8000_0000);
        let m = mid(lo, hi);
        assert forall|k: int| 0 <= k < 8 implies ((#[trigger] self.kids()[k]).octant() == k as u8 <==> exists|i: int|
            0 <= i < vs.len() && #[trigger] in_octant(vs[i].pos, lo, hi, k)) by {
            let c = self.kids()[k];
            let clo = octant_lo(lo, hi, k);
            let chi = octant_hi(lo, hi, k);
            c.lemma_build_shape(vs, clo, chi, (level - 1) as nat, k as u8);
            assert(m.x == div_trunc(lo.x + hi.x, 2));
            assert(m.y == div_trunc(lo.y + hi.y, 2));
            assert(m.z == div_trunc(lo.z + hi.z, 2));
            assert forall|i: int| 0 <= i < vs.len() implies (#[trigger] in_octant(vs[i].pos, lo, hi, k) <==> in_box(
                vs[i].pos,
                clo,
                chi,
            )) by {
                lemma_mid_between(lo.x as int, hi.x as int);
                lemma_mid_between(lo.y as int, hi.y as int);
                lemma_mid_between(lo.z as int, hi.z as int);
            }
            if c.octant() == k as u8 {
                assert(has_hit(vs, clo, chi));
                let i = choose|i: int| 0 <= i < vs.len() && #[trigger] in_box(vs[i].pos, clo, chi);
                assert(in_octant(vs[i].pos, lo, hi, k));
            }
            if exists|i: int| 0 <= i < vs.len() && #[trigger] in_octant(vs[i].pos, lo, hi, k) {
                let i = choose|i: int| 0 <= i < vs.len() && #[trigger] in_octant(vs[i].pos, lo, hi, k);
                assert(in_box(vs[i].pos, clo, chi));
                assert(has_hit(vs, clo, chi));
            }
        }
    }
}

} // verus!
