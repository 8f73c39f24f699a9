//! How a layer of a vinyl looks in memory: what tells a layer from other data.

use vstd::prelude::*;

use crate::device::{offset_by, plus, Color, Span, World};
use crate::float_bits::{
    plausible_position, plausible_scale, position_in_range, scale_in_range, scale_tolerable,
    scale_vanishes, tolerable_scale, vanishing_scale,
};
use crate::profiles::GameProfile;
use crate::winmem::{little_endian, u32_at};

verus! {

/// The bytes that the fields of a layer were read as.
pub struct LayerBytes {
    pub position: Seq<u8>,
    pub scale: Seq<u8>,
    pub color: Seq<u8>,
    pub shape: Seq<u8>,
    pub mask: Seq<u8>,
}

/// The fields of a layer that look as those of a layer do; the numbers of the first
/// two as single-precision bits.
#[derive(Clone, Copy, Debug, PartialEq, Eq)]
pub struct LayerLook {
    pub position: Option<(u32, u32)>,
    pub scale: Option<(u32, u32)>,
    pub color: Option<Color>,
    pub shape: Option<u8>,
    pub mask: Option<u8>,
}

/// The spans of the fields of the layer at `ptr`.
pub open spec fn layer_spans(p: GameProfile, ptr: u64) -> Seq<Span> {
    seq![
        Span { address: plus(ptr, p.layer_position_offset), size: 8 },
        Span { address: plus(ptr, p.layer_scale_offset), size: 8 },
        Span { address: plus(ptr, p.layer_color_offset), size: 4 },
        Span { address: plus(ptr, p.layer_shape_id_offset), size: 1 },
        Span { address: plus(ptr, p.layer_mask_offset), size: 1 },
    ]
}

/// The bytes of the layer at `ptr` in the world `w`.
pub open spec fn layer_bytes(w: World, p: GameProfile, ptr: u64) -> LayerBytes {
    LayerBytes {
        position: (w.read)(plus(ptr, p.layer_position_offset), 8),
        scale: (w.read)(plus(ptr, p.layer_scale_offset), 8),
        color: (w.read)(plus(ptr, p.layer_color_offset), 4),
        shape: (w.read)(plus(ptr, p.layer_shape_id_offset), 1),
        mask: (w.read)(plus(ptr, p.layer_mask_offset), 1),
    }
}

/// Two numbers of four bytes each, where a read gave eight bytes.
pub open spec fn number_pair(b: Seq<u8>) -> Option<(u32, u32)> {
    if b.len() == 8 {
        Some(
            (
                little_endian(b.subrange(0, 4)) as u32,
                little_endian(b.subrange(4, 8)) as u32,
            ),
        )
    } else {
        None
    }
}

/// A shape that a layer can have.
pub open spec fn known_shape(s: u8) -> bool {
    s == 0 || s == 1 || s == 2 || s == 100 || s == 101 || s == 102
}

/// The one byte that a read gave, where it gave one.
pub open spec fn single_byte(b: Seq<u8>) -> Option<u8> {
    if b.len() == 1 {
        Some(b[0])
    } else {
        None
    }
}

/// The four channels that a read gave.
pub open spec fn channels(b: Seq<u8>) -> Option<Color> {
    if b.len() == 4 {
        Some(Color { r: b[0], g: b[1], b: b[2], a: b[3] })
    } else {
        None
    }
}

/// The fields that look as those of a layer do.
pub open spec fn layer_look(b: LayerBytes) -> LayerLook {
    LayerLook {
        position: match number_pair(b.position) {
            Some((x, y)) => if plausible_position(x) && plausible_position(y) {
                Some((x, y))
            } else {
                None
            },
            None => None,
        },
        scale: match number_pair(b.scale) {
            Some((x, y)) => if plausible_scale(x) && plausible_scale(y) {
                Some((x, y))
            } else {
                None
            },
            None => None,
        },
        color: channels(b.color),
        shape: match single_byte(b.shape) {
            Some(s) => if known_shape(s) {
                Some(s)
            } else {
                None
            },
            None => None,
        },
        mask: match single_byte(b.mask) {
            Some(m) => if m <= 1 {
                Some(m)
            } else {
                None
            },
            None => None,
        },
    }
}

/// One for something, zero for nothing.
pub open spec fn one_if(b: bool) -> int {
    if b {
        1
    } else {
        0
    }
}

/// How many fields look as those of a layer do.
pub open spec fn look_score(l: LayerLook) -> int {
    one_if(l.position is Some) + one_if(l.scale is Some) + one_if(l.color is Some) + one_if(
        l.shape is Some,
    ) + one_if(l.mask is Some)
}

/// Whether the bytes are those of a complete layer: the scale shows something, and
/// the layer is opaque or fully transparent. A scale that is no number passes.
pub open spec fn strict_layer(b: LayerBytes) -> bool {
    &&& layer_look(b).position is Some
    &&& number_pair(b.scale) matches Some((x, y)) && tolerable_scale(x) && tolerable_scale(y) && !(
    vanishing_scale(x) && vanishing_scale(y))
    &&& channels(b.color) matches Some(c) && (c.a == 0 || c.a == 255)
    &&& layer_look(b).shape is Some
    &&& layer_look(b).mask is Some
}

/// How the memory at `ptr` looks as a layer in the world `w`.
pub open spec fn look_at(w: World, p: GameProfile, ptr: u64) -> LayerLook {
    layer_look(layer_bytes(w, p, ptr))
}

/// Adds the spans of the fields of the layer at `ptr`.
pub fn push_layer_spans(out: &mut Vec<Span>, p: &GameProfile, ptr: u64)
    ensures
        final(out)@ == old(out)@ + layer_spans(*p, ptr),
{
    out.push(Span { address: offset_by(ptr, p.layer_position_offset), size: 8 });
    out.push(Span { address: offset_by(ptr, p.layer_scale_offset), size: 8 });
    out.push(Span { address: offset_by(ptr, p.layer_color_offset), size: 4 });
    out.push(Span { address: offset_by(ptr, p.layer_shape_id_offset), size: 1 });
    out.push(Span { address: offset_by(ptr, p.layer_mask_offset), size: 1 });
    assert(out@ =~= old(out)@ + layer_spans(*p, ptr));
}

/// Reads two numbers of four bytes each.
pub fn read_float_pair(b: &Vec<u8>) -> (r: Option<(u32, u32)>)
    ensures
        r == number_pair(b@),
{
    if b.len() == 8 {
        Some((u32_at(b, 0), u32_at(b, 4)))
    } else {
        None
    }
}

/// The bytes of the layer that were read from block `from` on.
pub open spec fn bytes_from(blocks: Seq<Vec<u8>>, from: int) -> LayerBytes {
    LayerBytes {
        position: blocks[from]@,
        scale: blocks[from + 1]@,
        color: blocks[from + 2]@,
        shape: blocks[from + 3]@,
        mask: blocks[from + 4]@,
    }
}

/// The fields that look as those of a layer do.
pub fn score_layer_pointer(blocks: &Vec<Vec<u8>>, from: usize) -> (r: LayerLook)
    requires
        from + 5 <= blocks.len(),
    ensures
        r == layer_look(bytes_from(blocks@, from as int)),
{
    let position = match read_float_pair(&blocks[from]) {
        Some((x, y)) => if position_in_range(x) && position_in_range(y) {
            Some((x, y))
        } else {
            None
        },
        None => None,
    };
    let scale = match read_float_pair(&blocks[from + 1]) {
        Some((x, y)) => if scale_in_range(x) && scale_in_range(y) {
            Some((x, y))
        } else {
            None
        },
        None => None,
    };
    let c = &blocks[from + 2];
    let color = if c.len() == 4 {
        Some(Color { r: c[0], g: c[1], b: c[2], a: c[3] })
    } else {
        None
    };
    let s = &blocks[from + 3];
    let shape = if s.len() == 1 && (s[0] == 0 || s[0] == 1 || s[0] == 2 || s[0] == 100 || s[0]
        == 101 || s[0] == 102) {
        Some(s[0])
    } else {
        None
    };
    let m = &blocks[from + 4];
    let mask = if m.len() == 1 && m[0] <= 1 {
        Some(m[0])
    } else {
        None
    };
    LayerLook { position, scale, color, shape, mask }
}

impl LayerLook {
    /// How many fields look as those of a layer do.
    pub fn score(&self) -> (r: i64)
        ensures
            r == look_score(*self),
            0 <= r <= 5,
    {
        let mut n: i64 = 0;
        if self.position.is_some() {
            n = n + 1;
        }
        if self.scale.is_some() {
            n = n + 1;
        }
        if self.color.is_some() {
            n = n + 1;
        }
        if self.shape.is_some() {
            n = n + 1;
        }
        if self.mask.is_some() {
            n = n + 1;
        }
        n
    }
}

/// Decides `strict_layer` on the blocks from `from` on, which look as `look`.
pub fn strict_layer_pointer(blocks: &Vec<Vec<u8>>, from: usize, look: &LayerLook) -> (r: bool)
    requires
        from + 5 <= blocks.len(),
        *look == layer_look(bytes_from(blocks@, from as int)),
    ensures
        r == strict_layer(bytes_from(blocks@, from as int)),
{
    let scaled = match read_float_pair(&blocks[from + 1]) {
        Some((x, y)) => scale_tolerable(x) && scale_tolerable(y) && !(scale_vanishes(x)
            && scale_vanishes(y)),
        None => false,
    };
    let plain = match look.color {
        Some(c) => c.a == 0 || c.a == 255,
        None => false,
    };
    look.position.is_some() && scaled && plain && look.shape.is_some() && look.mask.is_some()
}

} // verus!
