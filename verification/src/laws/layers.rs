//! What a layer looks like in memory, byte by byte.

use vstd::prelude::*;

use crate::device::Color;
use crate::float_bits::law_ranges_by_bits;
use crate::layers::{layer_look, look_score, strict_layer, LayerBytes};
use crate::winmem::little_endian;

verus! {

/// The number that four bytes from position `i` on store, the lowest first.
pub open spec fn word(b: Seq<u8>, i: int) -> int {
    b[i] + 0x100 * b[i + 1] + 0x1_0000 * b[i + 2] + 0x100_0000 * b[i + 3]
}

/// Whether single-precision bits store a number from -10000 up to and without 10000.
pub open spec fn on_canvas(bits: int) -> bool {
    bits % 0x8000_0000 < 0x461C_4000 || bits == 0xC61C_4000
}

/// Whether single-precision bits store a number below 10000 in absolute value.
pub open spec fn small_number(bits: int) -> bool {
    bits % 0x8000_0000 < 0x461C_4000
}

/// Whether single-precision bits store no number.
pub open spec fn no_number(bits: int) -> bool {
    bits % 0x8000_0000 > 0x7F80_0000
}

/// Whether single-precision bits store a number below 0.0001 in absolute value.
pub open spec fn tiny_number(bits: int) -> bool {
    bits % 0x8000_0000 < 0x38D1_B717
}

/// One for what holds.
pub open spec fn point(b: bool) -> int {
    if b {
        1
    } else {
        0
    }
}

/// Eight bytes with two numbers on the canvas.
pub open spec fn position_bytes(b: Seq<u8>) -> bool {
    b.len() == 8 && on_canvas(word(b, 0)) && on_canvas(word(b, 4))
}

/// Eight bytes with two small numbers.
pub open spec fn scale_bytes(b: Seq<u8>) -> bool {
    b.len() == 8 && small_number(word(b, 0)) && small_number(word(b, 4))
}

/// One byte with the number of a shape.
pub open spec fn shape_byte(b: Seq<u8>) -> bool {
    b.len() == 1 && (b[0] == 0 || b[0] == 1 || b[0] == 2 || b[0] == 100 || b[0] == 101 || b[0]
        == 102)
}

/// One byte that is zero or one.
pub open spec fn flag_byte(b: Seq<u8>) -> bool {
    b.len() == 1 && (b[0] == 0 || b[0] == 1)
}

/// How many of the five fields look as those of a layer do.
pub open spec fn field_points(b: LayerBytes) -> int {
    point(position_bytes(b.position)) + point(scale_bytes(b.scale)) + point(b.color.len() == 4)
        + point(shape_byte(b.shape)) + point(flag_byte(b.mask))
}

/// Whether the bytes are those of a complete layer: a place on the canvas, a scale that
/// is not known to be too large and shows something, a colour that is opaque or fully
/// transparent, a shape and a mask flag.
pub open spec fn complete_bytes(b: LayerBytes) -> bool {
    &&& position_bytes(b.position)
    &&& b.scale.len() == 8
    &&& small_number(word(b.scale, 0)) || no_number(word(b.scale, 0))
    &&& small_number(word(b.scale, 4)) || no_number(word(b.scale, 4))
    &&& !(tiny_number(word(b.scale, 0)) && tiny_number(word(b.scale, 4)))
    &&& b.color.len() == 4
    &&& b.color[3] == 0 || b.color[3] == 255
    &&& shape_byte(b.shape)
    &&& flag_byte(b.mask)
}

/// The number that four bytes store.
pub proof fn lemma_word(b: Seq<u8>, i: int)
    requires
        0 <= i,
        i + 4 <= b.len(),
    ensures
        little_endian(b.subrange(i, i + 4)) == word(b, i),
        0 <= word(b, i) < 0x1_0000_0000,
{
    reveal_with_fuel(little_endian, 5);
    let s = b.subrange(i, i + 4);
    assert(s.drop_first()[0] == b[i + 1]);
    assert(s.drop_first().drop_first()[0] == b[i + 2]);
    assert(s.drop_first().drop_first().drop_first()[0] == b[i + 3]);
}

/// What counts as a layer is told by its bytes alone: which fields look as those of a
/// layer do and what they hold, how many they are, and whether the layer is complete.
pub proof fn law_layer_is_known_by_its_bytes(b: LayerBytes)
    ensures
        layer_look(b).position == (if position_bytes(b.position) {
            Some((word(b.position, 0) as u32, word(b.position, 4) as u32))
        } else {
            None
        }),
        layer_look(b).scale == (if scale_bytes(b.scale) {
            Some((word(b.scale, 0) as u32, word(b.scale, 4) as u32))
        } else {
            None
        }),
        layer_look(b).color == (if b.color.len() == 4 {
            Some(Color { r: b.color[0], g: b.color[1], b: b.color[2], a: b.color[3] })
        } else {
            None
        }),
        layer_look(b).shape == (if shape_byte(b.shape) {
            Some(b.shape[0])
        } else {
            None
        }),
        layer_look(b).mask == (if flag_byte(b.mask) {
            Some(b.mask[0])
        } else {
            None
        }),
        look_score(layer_look(b)) == field_points(b),
        strict_layer(b) <==> complete_bytes(b),
{
    if b.position.len() == 8 {
        lemma_word(b.position, 0);
        lemma_word(b.position, 4);
        law_ranges_by_bits(word(b.position, 0) as u32);
        law_ranges_by_bits(word(b.position, 4) as u32);
    }
    if b.scale.len() == 8 {
        lemma_word(b.scale, 0);
        lemma_word(b.scale, 4);
        law_ranges_by_bits(word(b.scale, 0) as u32);
        law_ranges_by_bits(word(b.scale, 4) as u32);
    }
}

} // verus!
