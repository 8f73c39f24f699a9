//! A vinyl template: what goes into each of its slots, and the writes that put it
//! there.

use vstd::prelude::*;

use crate::device::{offset_by, plus, Color, Coordinate, Field, FieldWrite};
use crate::geometry::{
    part, quotient, Geometry, GeometryView, Shape, ELLIPSE, MOST_SHAPES, RECTANGLE,
};
use crate::profiles::GameProfile;
use crate::winmem::{little_endian, u64_at};

verus! {

/// The largest whole number of which three halves are computed exactly.
pub const EXACT_HALVES: i64 = 0x4_0000_0000_0000;

/// Three halves of a whole number, without the fraction. Far from zero the sum is
/// left to double precision.
pub open spec fn three_halves(n: i64) -> Coordinate {
    if -EXACT_HALVES <= n <= EXACT_HALVES {
        Coordinate::Whole((n + quotient(n as int, 2)) as i64)
    } else {
        Coordinate::ThreeHalves(n)
    }
}

/// The sum of two whole numbers as the processor computes it.
pub open spec fn wrapped_sum(a: int, b: int) -> i64 {
    let s = a + b;
    if s > i64::MAX {
        (s - 0x1_0000_0000_0000_0000) as i64
    } else if s < i64::MIN {
        (s + 0x1_0000_0000_0000_0000) as i64
    } else {
        s as i64
    }
}

/// A black rectangle that masks what lies under it.
pub open spec fn mask(x: i64, y: i64, w: i64, h: Coordinate) -> Shape {
    Shape {
        type_id: RECTANGLE,
        x: Coordinate::Whole(x),
        y: Coordinate::Whole(y),
        w: Coordinate::Whole(w),
        h,
        rot_deg: Coordinate::Whole(0),
        color: Color { r: 0, g: 0, b: 0, a: 255 },
        is_mask: true,
    }
}

/// The rectangles that clip an image at its left, right, upper and lower edge.
pub open spec fn edge_masks(image_w: i64, image_h: i64) -> Seq<Shape> {
    let w = image_w as int;
    let h = image_h as int;
    seq![
        mask(
            -quotient(w, 4) as i64,
            quotient(h, 2) as i64,
            quotient(w, 2) as i64,
            three_halves(image_h),
        ),
        mask(
            wrapped_sum(w, quotient(w, 4)),
            quotient(h, 2) as i64,
            quotient(w, 2) as i64,
            three_halves(image_h),
        ),
        mask(
            quotient(w, 2) as i64,
            -quotient(h, 4) as i64,
            wrapped_sum(w, w),
            Coordinate::Whole(quotient(h, 2) as i64),
        ),
        mask(
            quotient(w, 2) as i64,
            wrapped_sum(h, quotient(h, 4)),
            wrapped_sum(w, w),
            Coordinate::Whole(quotient(h, 2) as i64),
        ),
    ]
}

/// The shapes that a template with `count` layers takes: as many of the image as
/// leave four layers, and behind them the masks, where they are wanted.
pub open spec fn placed(g: GeometryView, count: u32, edge_mask: bool) -> Seq<Shape> {
    let most = if count - 4 < MOST_SHAPES {
        count - 4
    } else {
        MOST_SHAPES as int
    };
    let kept = if g.shapes.len() > most {
        g.shapes.take(most)
    } else {
        g.shapes
    };
    if edge_mask {
        kept + edge_masks(g.image_w, g.image_h)
    } else {
        kept
    }
}

/// What hides a layer: a mask without size or colour, far from the canvas.
pub open spec fn hidden() -> Shape {
    Shape {
        type_id: RECTANGLE,
        x: Coordinate::Whole((-100000) as i64),
        y: Coordinate::Whole((-100000) as i64),
        w: Coordinate::Whole(0),
        h: Coordinate::Whole(0),
        rot_deg: Coordinate::Whole(0),
        color: Color { r: 0, g: 0, b: 0, a: 0 },
        is_mask: true,
    }
}

/// What slot `i` of the template gets: its shape, or what hides it.
pub open spec fn slot_shape(shapes: Seq<Shape>, i: int) -> Shape {
    if 0 <= i < shapes.len() {
        shapes[i]
    } else {
        hidden()
    }
}

/// The writes that put the shape `s` into the layer at `address`, in their order.
pub open spec fn shape_writes(p: GameProfile, address: u64, s: Shape) -> Seq<FieldWrite> {
    let divisor: u32 = if s.type_id == ELLIPSE {
        63
    } else {
        127
    };
    let first = seq![
        FieldWrite {
            address: plus(address, p.layer_position_offset),
            field: Field::Position { x: s.x, y: s.y },
        },
        FieldWrite {
            address: plus(address, p.layer_scale_offset),
            field: Field::Scale { w: s.w, h: s.h, divisor },
        },
        FieldWrite {
            address: plus(address, p.layer_rotation_offset),
            field: Field::Rotation(s.rot_deg),
        },
        FieldWrite { address: plus(address, p.layer_color_offset), field: Field::Color(s.color) },
    ];
    let shaped = if s.type_id == ELLIPSE {
        first.push(
            FieldWrite {
                address: plus(address, p.layer_shape_id_offset),
                field: Field::ShapeId(102),
            },
        )
    } else if s.type_id == RECTANGLE {
        first.push(
            FieldWrite {
                address: plus(address, p.layer_shape_id_offset),
                field: Field::ShapeId(101),
            },
        )
    } else {
        first
    };
    shaped.push(
        FieldWrite {
            address: plus(address, p.layer_mask_offset),
            field: Field::Mask(
                if s.is_mask {
                    1
                } else {
                    0
                },
            ),
        },
    )
}

/// The pointers that the bytes of a table hold, eight bytes each.
pub open spec fn pointers(raw: Seq<u8>) -> Seq<u64> {
    Seq::new(
        raw.len() / 8,
        |i: int| little_endian(raw.subrange(8 * i, 8 * i + 8)) as u64,
    )
}

/// The writes of slot `i`; none where the table has no layer for it.
pub open spec fn slot_writes(
    p: GameProfile,
    addresses: Seq<u64>,
    shapes: Seq<Shape>,
    i: int,
) -> Seq<FieldWrite> {
    if 0 <= i < addresses.len() {
        shape_writes(p, addresses[i], slot_shape(shapes, i))
    } else {
        Seq::empty()
    }
}

/// Adds as the processor does.
fn sum(a: i64, b: i64) -> (r: i64)
    ensures
        r == wrapped_sum(a as int, b as int),
{
    a.wrapping_add(b)
}

/// The shape of a mask.
fn make_mask(x: i64, y: i64, w: i64, h: Coordinate) -> (r: Shape)
    ensures
        r == mask(x, y, w, h),
{
    Shape {
        type_id: RECTANGLE,
        x: Coordinate::Whole(x),
        y: Coordinate::Whole(y),
        w: Coordinate::Whole(w),
        h,
        rot_deg: Coordinate::Whole(0),
        color: Color { r: 0, g: 0, b: 0, a: 255 },
        is_mask: true,
    }
}

/// Adds the rectangles that clip an image at its edges.
fn push_masks(shapes: &mut Vec<Shape>, image_w: i64, image_h: i64)
    ensures
        final(shapes)@ == old(shapes)@ + edge_masks(image_w, image_h),
{
    let tall = if -EXACT_HALVES <= image_h && image_h <= EXACT_HALVES {
        Coordinate::Whole(image_h + part(image_h, 2))
    } else {
        Coordinate::ThreeHalves(image_h)
    };
    let half_w: i64 = part(image_w, 2);
    let half_h: i64 = part(image_h, 2);
    let quarter_w: i64 = part(image_w, 4);
    let quarter_h: i64 = part(image_h, 4);
    shapes.push(make_mask(-quarter_w, half_h, half_w, tall));
    shapes.push(make_mask(sum(image_w, quarter_w), half_h, half_w, tall));
    shapes.push(make_mask(half_w, -quarter_h, sum(image_w, image_w), Coordinate::Whole(half_h)));
    shapes.push(
        make_mask(half_w, sum(image_h, quarter_h), sum(image_w, image_w), Coordinate::Whole(half_h)),
    );
    assert(shapes@ =~= old(shapes)@ + edge_masks(image_w, image_h));
}

/// The shapes that a template with `count` layers takes.
pub fn place(g: &Geometry, count: u32, edge_mask: bool) -> (r: Vec<Shape>)
    requires
        count >= 4,
    ensures
        r@ == placed(g@, count, edge_mask),
{
    let room: u32 = count - 4;
    let most: usize = if room < 2996 {
        room as usize
    } else {
        MOST_SHAPES
    };
    let total: usize = if g.shapes.len() > most {
        most
    } else {
        g.shapes.len()
    };
    let mut shapes: Vec<Shape> = Vec::new();
    for i in 0..total
        invariant
            total <= g.shapes.len(),
            shapes@ == g.shapes@.take(i as int),
    {
        shapes.push(g.shapes[i]);
        assert(shapes@ =~= g.shapes@.take(i + 1));
    }
    assert(g.shapes@.take(g.shapes@.len() as int) =~= g.shapes@);
    if edge_mask {
        push_masks(&mut shapes, g.image_w, g.image_h);
    }
    shapes
}

/// What slot `i` of the template gets.
fn shape_for(shapes: &Vec<Shape>, i: usize) -> (r: Shape)
    ensures
        r == slot_shape(shapes@, i as int),
{
    if i < shapes.len() {
        shapes[i]
    } else {
        Shape {
            type_id: RECTANGLE,
            x: Coordinate::Whole(-100000),
            y: Coordinate::Whole(-100000),
            w: Coordinate::Whole(0),
            h: Coordinate::Whole(0),
            rot_deg: Coordinate::Whole(0),
            color: Color { r: 0, g: 0, b: 0, a: 0 },
            is_mask: true,
        }
    }
}

/// The writes that put the shape `s` into the layer at `address`.
pub fn plan_shape(p: &GameProfile, address: u64, s: &Shape) -> (r: Vec<FieldWrite>)
    ensures
        r@ == shape_writes(*p, address, *s),
{
    let divisor: u32 = if s.type_id == ELLIPSE {
        63
    } else {
        127
    };
    let mut out: Vec<FieldWrite> = Vec::new();
    out.push(
        FieldWrite {
            address: offset_by(address, p.layer_position_offset),
            field: Field::Position { x: s.x, y: s.y },
        },
    );
    out.push(
        FieldWrite {
            address: offset_by(address, p.layer_scale_offset),
            field: Field::Scale { w: s.w, h: s.h, divisor },
        },
    );
    out.push(
        FieldWrite {
            address: offset_by(address, p.layer_rotation_offset),
            field: Field::Rotation(s.rot_deg),
        },
    );
    out.push(
        FieldWrite {
            address: offset_by(address, p.layer_color_offset),
            field: Field::Color(s.color),
        },
    );
    let shape_id: u64 = offset_by(address, p.layer_shape_id_offset);
    if s.type_id == ELLIPSE {
        out.push(FieldWrite { address: shape_id, field: Field::ShapeId(102) });
    } else if s.type_id == RECTANGLE {
        out.push(FieldWrite { address: shape_id, field: Field::ShapeId(101) });
    }
    let flag: u8 = if s.is_mask {
        1
    } else {
        0
    };
    out.push(
        FieldWrite {
            address: offset_by(address, p.layer_mask_offset),
            field: Field::Mask(flag),
        },
    );
    assert(out@ =~= shape_writes(*p, address, *s));
    out
}

/// The pointers that the bytes of a table hold.
pub fn read_pointers(raw: &Vec<u8>) -> (r: Vec<u64>)
    ensures
        r@ == pointers(raw@),
{
    let n: usize = raw.len() / 8;
    let mut out: Vec<u64> = Vec::new();
    for i in 0..n
        invariant
            n == raw.len() / 8,
            out@ =~= pointers(raw@).take(i as int),
    {
        let from: usize = 8 * i;
        out.push(u64_at(raw, from));
    }
    assert(pointers(raw@).take(n as int) =~= pointers(raw@));
    out
}

/// The writes of slot `i`.
pub fn plan_slot(
    p: &GameProfile,
    addresses: &Vec<u64>,
    shapes: &Vec<Shape>,
    i: usize,
) -> (r: Vec<FieldWrite>)
    ensures
        r@ == slot_writes(*p, addresses@, shapes@, i as int),
{
    if i < addresses.len() {
        let s = shape_for(shapes, i);
        plan_shape(p, addresses[i], &s)
    } else {
        Vec::new()
    }
}

/// The shapes and the masks of an image fit into the template, and the shapes are the
/// first of the image.
pub proof fn law_shapes_fit_template(g: GeometryView, count: u32, edge_mask: bool)
    requires
        count >= 4,
    ensures
        ({
            let r = placed(g, count, edge_mask);
            let masks = if edge_mask {
                4int
            } else {
                0
            };
            &&& r.len() <= count
            &&& r.len() <= MOST_SHAPES + masks
            &&& r.take(r.len() - masks).is_prefix_of(g.shapes)
        }),
{
    let most = if count - 4 < MOST_SHAPES {
        count - 4
    } else {
        MOST_SHAPES as int
    };
    let kept = if g.shapes.len() > most {
        g.shapes.take(most)
    } else {
        g.shapes
    };
    let r = placed(g, count, edge_mask);
    assert(r.take(kept.len() as int) =~= kept);
    assert(kept =~= g.shapes.subrange(0, kept.len() as int));
}

} // verus!
