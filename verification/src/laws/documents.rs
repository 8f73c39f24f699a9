//! What a geometry document holds, entry by entry: as it is written, as it is imported and
//! as it is previewed.

use vstd::arithmetic::power2::*;
use vstd::prelude::*;

use crate::device::{Color, Coordinate};
use crate::drawing::{
    document_means, drawing_syntax, half_axis, lemma_document, lemma_plain_drawing, Drawing,
    DrawnShape,
};
use crate::float_bits::{double_clamped, double_whole};
use crate::geometry::{geometry_of, shape_of, shapes_of, GeometryError, GeometryView, Shape};
use crate::json::{
    conforms, double_is, is_whole, json_document, member_i64, member_signed, syntax_text, tree_list,
    JsonTree,
};
use crate::laws::imports::drawable;
use crate::preview::{
    ellipse_of, ellipses_of, float_at, floats_of, preview_of, preview_size, PreviewEllipse,
    Reading,
};

verus! {

/// Whether a value is the number with these double-precision bits.
pub open spec fn stored_as(t: JsonTree, bits: u64) -> bool {
    t matches JsonTree::Number(n) && n.float == Some(bits)
}

/// Whether the lowest byte of a value is `b`: of a whole number its remainder by 256, of
/// anything else zero.
pub open spec fn low_byte_is(t: JsonTree, b: u8) -> bool {
    match t {
        JsonTree::Number(n) => match n.signed {
            Some(k) => b as int == (k as int) % 256,
            None => b == 0,
        },
        _ => b == 0,
    }
}

/// Whether a value is the whole number `n`, exactly.
pub open spec fn number_is(t: JsonTree, n: int) -> bool {
    t matches JsonTree::Number(k) && k.signed == Some(n as i64) && (k.float matches Some(bits)
        && double_is(bits, n))
}

/// Whether an entry says that it is an ellipse.
pub open spec fn says_ellipse(t: JsonTree) -> bool {
    member_signed(t, "type"@) == Some(16i64)
}

/// Whether an ellipse of a preview is the one of an entry: its five numbers and the first
/// three channels of its colour, in their order.
pub open spec fn shows(e: PreviewEllipse, t: JsonTree) -> bool {
    &&& tree_list(t, "data"@) matches Some(d) && {
        &&& d.len() >= 5
        &&& stored_as(d[0], e.cx)
        &&& stored_as(d[1], e.cy)
        &&& stored_as(d[2], e.w)
        &&& stored_as(d[3], e.h)
        &&& stored_as(d[4], e.deg)
    }
    &&& tree_list(t, "color"@) matches Some(c) && {
        &&& c.len() >= 3
        &&& low_byte_is(c[0], e.r)
        &&& low_byte_is(c[1], e.g)
        &&& low_byte_is(c[2], e.b)
    }
}

proof fn lemma_floats(s: Seq<JsonTree>, n: int)
    requires
        0 <= n,
        floats_of(s, n) is Found,
    ensures
        floats_of(s, n) matches Reading::Found(v) && {
            &&& v.len() == n
            &&& s.len() >= n
            &&& forall|i: int| 0 <= i < n ==> stored_as(#[trigger] s[i], v[i])
        },
    decreases n,
{
    if n > 0 {
        lemma_floats(s, n - 1);
        assert(float_at(s, n - 1) is Found);
    }
}

proof fn lemma_shows(t: JsonTree)
    ensures
        match ellipse_of(t) {
            Reading::Found(Some(e)) => says_ellipse(t) && shows(e, t),
            Reading::Found(None) => !says_ellipse(t),
            _ => says_ellipse(t),
        },
{
    match ellipse_of(t) {
        Reading::Found(Some(e)) => {
            let d = tree_list(t, "data"@).unwrap();
            lemma_floats(d, 5);
            assert(stored_as(d[0], e.cx) && stored_as(d[1], e.cy) && stored_as(d[2], e.w));
            assert(stored_as(d[3], e.h) && stored_as(d[4], e.deg));
        },
        _ => {},
    }
}

/// The ellipses of a preview are those of the entries that say so, in the order of the
/// document: the first is painted first, and each over those before it.
pub proof fn law_ellipses_keep_their_order(items: Seq<JsonTree>)
    ensures
        ellipses_of(items) matches Reading::Found(v) ==> {
            let said = items.filter(|t: JsonTree| says_ellipse(t));
            &&& v.len() == said.len()
            &&& forall|k: int| 0 <= k < v.len() ==> shows(#[trigger] v[k], said[k])
        },
    decreases items.len(),
{
    reveal(Seq::filter);
    if items.len() > 0 {
        law_ellipses_keep_their_order(items.drop_last());
        lemma_shows(items.last());
        if ellipses_of(items) is Found {
            let before = items.drop_last().filter(|t: JsonTree| says_ellipse(t));
            let said = items.filter(|t: JsonTree| says_ellipse(t));
            let v = ellipses_of(items)->Found_0;
            let u = ellipses_of(items.drop_last())->Found_0;
            assert forall|k: int| 0 <= k < v.len() implies shows(#[trigger] v[k], said[k]) by {
                if k < u.len() {
                    assert(v[k] == u[k]);
                    assert(said[k] == before[k]);
                }
            }
        }
    }
}

/// A whole number that a double stores exactly is read without loss.
pub proof fn lemma_whole_double(b: u64, n: int)
    requires
        double_is(b, n),
        0 <= n <= u64::MAX,
    ensures
        double_clamped(b, 0, u64::MAX as int) == n,
{
    let e = ((b / 0x10_0000_0000_0000) % 2048) as nat;
    let m = (0x10_0000_0000_0000 + b % 0x10_0000_0000_0000) as nat;
    if n == 0 {
        lemma_pow2_pos(1074);
        assert(double_whole(0) == 0nat / pow2(1074));
        assert(0nat / pow2(1074) == 0) by (nonlinear_arith)
            requires
                pow2(1074) > 0,
        ;
    } else if e >= 1075 {
        lemma_pow2_adds(1075, (e - 1075) as nat);
        lemma_pow2_pos(1075);
        let x = m * pow2((e - 1075) as nat);
        assert(x == n) by (nonlinear_arith)
            requires
                m * pow2(e) == n * pow2(1075),
                pow2(e) == pow2(1075) * pow2((e - 1075) as nat),
                x == m * pow2((e - 1075) as nat),
                pow2(1075) > 0,
        ;
    } else {
        let q = pow2((1075 - e) as nat);
        lemma_pow2_adds(e, (1075 - e) as nat);
        lemma_pow2_pos(e);
        lemma_pow2_pos((1075 - e) as nat);
        assert(m == n * q) by (nonlinear_arith)
            requires
                m * pow2(e) == n * pow2(1075),
                pow2(1075) == pow2(e) * q,
                pow2(e) > 0,
        ;
        assert((n * q) / (q as int) == n) by (nonlinear_arith)
            requires
                q > 0,
        ;
    }
}

/// Whether an entry of a document is a shape of a drawing: its kind, 1 for a rectangle and
/// 16 for an ellipse, its centre, its half axes and its angle, and its colour with the
/// opacity of the shapes.
pub open spec fn entry_of(t: JsonTree, s: DrawnShape, alpha: u8) -> bool {
    &&& member_i64(t, "type"@) == (if s.rect {
        1int
    } else {
        16
    })
    &&& tree_list(t, "data"@) matches Some(d) && {
        &&& d.len() == 5
        &&& number_is(d[0], s.cx as int)
        &&& number_is(d[1], s.cy as int)
        &&& number_is(d[2], s.rx as int)
        &&& number_is(d[3], s.ry as int)
        &&& number_is(d[4], s.deg as int)
    }
    &&& tree_list(t, "color"@) matches Some(c) && {
        &&& c.len() == 4
        &&& number_is(c[0], s.r as int)
        &&& number_is(c[1], s.g as int)
        &&& number_is(c[2], s.b as int)
        &&& number_is(c[3], alpha as int)
    }
}

/// Whether an entry is the head of a document: kind 8, the size of the image behind two
/// zeros, and the background.
pub open spec fn head_of(t: JsonTree, d: Drawing) -> bool {
    &&& member_i64(t, "type"@) == 8
    &&& tree_list(t, "data"@) matches Some(v) && {
        &&& v.len() == 4
        &&& number_is(v[0], 0)
        &&& number_is(v[1], 0)
        &&& number_is(v[2], d.w as int)
        &&& number_is(v[3], d.h as int)
    }
    &&& tree_list(t, "color"@) matches Some(c) && {
        &&& c.len() == 4
        &&& number_is(c[0], d.r as int)
        &&& number_is(c[1], d.g as int)
        &&& number_is(c[2], d.b as int)
        &&& number_is(c[3], d.a as int)
    }
}

/// The document that the generator writes holds the head and behind it the shapes, in
/// their order. The one condition is what the JSON parser promises of such a text.
pub proof fn law_drawing_is_written_entry_by_entry(d: Drawing)
    requires
        conforms(syntax_text(drawing_syntax(d)), json_document(syntax_text(drawing_syntax(d)))),
    ensures
        json_document(syntax_text(drawing_syntax(d))) matches Some(t) && (tree_list(
            t,
            "shapes"@,
        ) matches Some(items) && {
            &&& items.len() == d.shapes@.len() + 1
            &&& head_of(items[0], d)
            &&& forall|i: int|
                0 <= i < d.shapes@.len() ==> entry_of(
                    items[i + 1],
                    #[trigger] d.shapes@[i],
                    d.shape_alpha,
                )
        }),
{
    let text = syntax_text(drawing_syntax(d));
    lemma_plain_drawing(d);
    let t = json_document(text).unwrap();
    lemma_document(d, t);
    assert(document_means(t, d));
    let items = tree_list(t, "shapes"@).unwrap();
    let v = tree_list(items[0], "data"@).unwrap();
    let c = tree_list(items[0], "color"@).unwrap();
    assert(is_whole(v[0], 0) && is_whole(v[1], 0) && is_whole(v[2], d.w as int) && is_whole(
        v[3],
        d.h as int,
    ));
    assert(is_whole(c[0], d.r as int) && is_whole(c[1], d.g as int) && is_whole(c[2], d.b as int)
        && is_whole(c[3], d.a as int));
    assert forall|i: int| 0 <= i < d.shapes@.len() implies entry_of(
        items[i + 1],
        #[trigger] d.shapes@[i],
        d.shape_alpha,
    ) by {
        let s = d.shapes@[i];
        let entry = items.drop_first()[i];
        assert(entry == items[i + 1]);
        let data = tree_list(entry, "data"@).unwrap();
        let color = tree_list(entry, "color"@).unwrap();
        assert(is_whole(data[0], s.cx as int) && is_whole(data[1], s.cy as int) && is_whole(
            data[2],
            s.rx as int,
        ) && is_whole(data[3], s.ry as int) && is_whole(data[4], s.deg as int));
        assert(is_whole(color[0], s.r as int) && is_whole(color[1], s.g as int) && is_whole(
            color[2],
            s.b as int,
        ) && is_whole(color[3], d.shape_alpha as int));
    }
}

/// Whether an ellipse of a preview is a shape of a drawing, number by number.
pub open spec fn previews(e: PreviewEllipse, s: DrawnShape) -> bool {
    &&& double_is(e.cx, s.cx as int)
    &&& double_is(e.cy, s.cy as int)
    &&& double_is(e.w, s.rx as int)
    &&& double_is(e.h, s.ry as int)
    &&& double_is(e.deg, s.deg as int)
    &&& e.r == s.r
    &&& e.g == s.g
    &&& e.b == s.b
}

/// An entry that is a shape of a drawing is read as that shape, a rectangle passed over.
proof fn lemma_entry_previewed(t: JsonTree, s: DrawnShape, alpha: u8)
    requires
        entry_of(t, s, alpha),
        member_signed(t, "type"@) == Some(
            if s.rect {
                1i64
            } else {
                16
            },
        ),
    ensures
        s.rect ==> ellipse_of(t) == Reading::<Option<PreviewEllipse>>::Found(None),
        !s.rect ==> (ellipse_of(t) matches Reading::Found(Some(e)) && previews(e, s)),
{
    if !s.rect {
        let d = tree_list(t, "data"@).unwrap();
        reveal_with_fuel(floats_of, 6);
        assert(float_at(d, 0) is Found && float_at(d, 1) is Found && float_at(d, 2) is Found
            && float_at(d, 3) is Found && float_at(d, 4) is Found);
        assert(floats_of(d, 5) is Found);
        lemma_shows(t);
    }
}

/// The entries of a drawing are previewed as its ellipses, in their order.
proof fn lemma_entries_previewed(items: Seq<JsonTree>, shapes: Seq<DrawnShape>, alpha: u8)
    requires
        items.len() == shapes.len(),
        forall|i: int| 0 <= i < items.len() ==> entry_of(#[trigger] items[i], shapes[i], alpha),
        forall|i: int|
            0 <= i < items.len() ==> member_signed(#[trigger] items[i], "type"@) == Some(
                if shapes[i].rect {
                    1i64
                } else {
                    16
                },
            ),
    ensures
        ellipses_of(items) matches Reading::Found(v) && {
            let round = shapes.filter(|s: DrawnShape| !s.rect);
            &&& v.len() == round.len()
            &&& forall|k: int| 0 <= k < v.len() ==> previews(#[trigger] v[k], round[k])
        },
    decreases items.len(),
{
    reveal(Seq::filter);
    if items.len() > 0 {
        let front = items.drop_last();
        let first = shapes.drop_last();
        assert forall|i: int| 0 <= i < front.len() implies entry_of(
            #[trigger] front[i],
            first[i],
            alpha,
        ) by {
            assert(entry_of(items[i], shapes[i], alpha));
        }
        assert forall|i: int| 0 <= i < front.len() implies member_signed(
            #[trigger] front[i],
            "type"@,
        ) == Some(
            if first[i].rect {
                1i64
            } else {
                16
            },
        ) by {
            assert(items[i] == front[i]);
        }
        lemma_entries_previewed(front, first, alpha);
        let last = items[items.len() - 1];
        assert(entry_of(last, shapes[items.len() - 1], alpha));
        lemma_entry_previewed(last, shapes.last(), alpha);
        let u = ellipses_of(front)->Found_0;
        let v = ellipses_of(items)->Found_0;
        let before = first.filter(|s: DrawnShape| !s.rect);
        let round = shapes.filter(|s: DrawnShape| !s.rect);
        assert forall|k: int| 0 <= k < v.len() implies previews(#[trigger] v[k], round[k]) by {
            if k < u.len() {
                assert(v[k] == u[k]);
                assert(round[k] == before[k]);
            }
        }
    }
}

/// The preview of what the generator writes shows the image at its size, on its
/// background, with the ellipses of the drawing, each with its own numbers and its own
/// colour, in the order in which they were drawn.
pub proof fn law_preview_shows_the_drawing(d: Drawing)
    requires
        conforms(syntax_text(drawing_syntax(d)), json_document(syntax_text(drawing_syntax(d)))),
        d.w > 0,
        d.h > 0,
        d.w * d.h <= 64000000,
        0 <= d.r <= 255,
        0 <= d.g <= 255,
        0 <= d.b <= 255,
    ensures
        json_document(syntax_text(drawing_syntax(d))) matches Some(t) && (preview_of(
            t,
        ) matches Reading::Found(v) && {
            let round = d.shapes@.filter(|s: DrawnShape| !s.rect);
            &&& v.w == d.w
            &&& v.h == d.h
            &&& v.r == d.r
            &&& v.g == d.g
            &&& v.b == d.b
            &&& v.ellipses.len() == round.len()
            &&& forall|k: int|
                0 <= k < round.len() ==> previews(#[trigger] v.ellipses[k], round[k])
        }),
{
    law_drawing_is_written_entry_by_entry(d);
    let text = syntax_text(drawing_syntax(d));
    let t = json_document(text).unwrap();
    let items = tree_list(t, "shapes"@).unwrap();
    let rest = items.drop_first();
    lemma_plain_drawing(d);
    lemma_document(d, t);
    assert forall|i: int| 0 <= i < rest.len() implies entry_of(
        #[trigger] rest[i],
        d.shapes@[i],
        d.shape_alpha,
    ) by {
        assert(rest[i] == items[i + 1]);
    }
    assert forall|i: int| 0 <= i < rest.len() implies member_signed(#[trigger] rest[i], "type"@)
        == Some(
        if d.shapes@[i].rect {
            1i64
        } else {
            16
        },
    ) by {
        lemma_types_signed(d, t, i);
    }
    lemma_entries_previewed(rest, d.shapes@, d.shape_alpha);
    let size = tree_list(items[0], "data"@).unwrap();
    let wb = float_at(size, 2)->Found_0;
    let hb = float_at(size, 3)->Found_0;
    assert(number_is(size[2], d.w as int) && number_is(size[3], d.h as int));
    lemma_whole_double(wb, d.w as int);
    lemma_whole_double(hb, d.h as int);
}

/// The kind of a shape is written as a whole number.
proof fn lemma_types_signed(d: Drawing, t: JsonTree, i: int)
    requires
        crate::json::syntax_means(drawing_syntax(d), t, 100),
        0 <= i < d.shapes@.len(),
    ensures
        tree_list(t, "shapes"@) matches Some(items) && items.len() == d.shapes@.len() + 1
            && member_signed(items[i + 1], "type"@) == Some(
            if d.shapes@[i].rect {
                1i64
            } else {
                16
            },
        ),
{
    let members = drawing_syntax(d)->Object_0;
    let entries = crate::drawing::entries_syntax(d);
    let list = t->Object_0[members[0].0];
    assert(crate::json::syntax_means(members[0].1, list, 99));
    let items = list->Array_0;
    assert(members[0].1 == crate::json::JsonSyntax::Array(entries));
    assert(crate::json::syntax_means(entries[i + 1], items[i + 1], 98));
    let parts = entries[i + 1]->Object_0;
    assert(parts[0].0 == "type"@);
    assert(crate::json::syntax_means(parts[0].1, items[i + 1]->Object_0[parts[0].0], 97));
}

/// A number held within a byte.
pub open spec fn within_byte(n: int) -> int {
    if n < 0 {
        0
    } else if n > 255 {
        255
    } else {
        n
    }
}

/// Whether a channel is a value, held within a byte: a whole number as it is, another
/// number without its fraction, anything else as zero.
pub open spec fn channel_is(c: u8, t: JsonTree) -> bool {
    c as int == within_byte(whole_of(t))
}

/// The whole number of a value: an integer as it is, another number without its
/// fraction, anything else as zero.
pub open spec fn whole_of(t: JsonTree) -> int {
    match t {
        JsonTree::Number(n) => match (n.signed, n.float) {
            (Some(k), _) => k as int,
            (None, Some(b)) => double_clamped(b, i64::MIN as int, i64::MAX as int),
            _ => 0,
        },
        _ => 0,
    }
}

/// Whether a colour is the four values of a list.
pub open spec fn color_is(color: Color, c: Seq<JsonTree>) -> bool {
    channel_is(color.r, c[0]) && channel_is(color.g, c[1]) && channel_is(color.b, c[2])
        && channel_is(color.a, c[3])
}

/// Whether a coordinate is a value: the bits of a number, zero for anything else.
pub open spec fn coordinate_is(x: Coordinate, t: JsonTree) -> bool {
    x matches Coordinate::Bits(bits) && (match t {
        JsonTree::Number(n) => match n.float {
            Some(b) => bits == b,
            None => bits == 0,
        },
        _ => bits == 0,
    })
}

/// Whether a shape is the one of an entry: its kind, its five numbers in their order and
/// its colour; no mask.
pub open spec fn reads(s: Shape, t: JsonTree) -> bool {
    &&& s.type_id == member_i64(t, "type"@)
    &&& drawable(s)
    &&& tree_list(t, "data"@) matches Some(d) && {
        &&& coordinate_is(s.x, d[0])
        &&& coordinate_is(s.y, d[1])
        &&& coordinate_is(s.w, d[2])
        &&& coordinate_is(s.h, d[3])
        &&& coordinate_is(s.rot_deg, d[4])
    }
    &&& tree_list(t, "color"@) matches Some(c) && color_is(s.color, c)
    &&& !s.is_mask
}

/// The shapes of entries are read in their order; an entry of another kind is refused.
proof fn lemma_shapes_read_in_order(items: Seq<JsonTree>)
    ensures
        shapes_of(items) matches Ok(v) ==> v.len() == items.len() && forall|i: int|
            0 <= i < items.len() ==> reads(#[trigger] v[i], items[i]),
        (exists|i: int|
            0 <= i < items.len() && member_i64(#[trigger] items[i], "type"@) != 1 && member_i64(
                items[i],
                "type"@,
            ) != 16) ==> shapes_of(items) is Err,
    decreases items.len(),
{
    if items.len() > 0 {
        let front = items.drop_last();
        lemma_shapes_read_in_order(front);
        if shapes_of(items) is Ok {
            let v = shapes_of(items).unwrap();
            let before = shapes_of(front).unwrap();
            assert forall|i: int| 0 <= i < items.len() implies reads(#[trigger] v[i], items[i]) by {
                if i < front.len() {
                    assert(v[i] == before[i]);
                    assert(front[i] == items[i]);
                    assert(reads(before[i], front[i]));
                } else {
                    assert(shape_of(items.last()) == Ok::<Shape, GeometryError>(v[i]));
                }
            }
            assert forall|i: int| 0 <= i < items.len() implies member_i64(
                #[trigger] items[i],
                "type"@,
            ) == 1 || member_i64(items[i], "type"@) == 16 by {
                assert(reads(v[i], items[i]));
            }
        }
    }
}

/// A geometry is read from its document entry by entry: the size and the background from
/// the head, a rectangle over the whole image in the colour of the background where that
/// shows, and behind it the shapes in the order of the document. Every shape is an
/// ellipse or a rectangle.
pub proof fn law_geometry_is_read_entry_by_entry(t: JsonTree)
    ensures
        geometry_of(t) matches Ok(v) ==> (tree_list(t, "shapes"@) matches Some(items) && {
            let before = if v.background.a > 0 {
                1int
            } else {
                0
            };
            &&& items.len() >= 1
            &&& tree_list(items[0], "data"@) matches Some(d) && d.len() == 4 && v.image_w
                == whole_of(d[2]) && v.image_h == whole_of(d[3])
            &&& tree_list(items[0], "color"@) matches Some(c) && c.len() == 4 && color_is(
                v.background,
                c,
            )
            &&& v.shapes.len() == items.len() - 1 + before
            &&& v.background.a > 0 && v.image_w >= 0 && v.image_h >= 0 ==> v.shapes[0] == (Shape {
                type_id: 1,
                x: Coordinate::Whole((v.image_w / 2) as i64),
                y: Coordinate::Whole((v.image_h / 2) as i64),
                w: Coordinate::Whole(v.image_w),
                h: Coordinate::Whole(v.image_h),
                rot_deg: Coordinate::Whole(0),
                color: v.background,
                is_mask: false,
            })
            &&& forall|i: int|
                1 <= i < items.len() ==> reads(v.shapes[i - 1 + before], #[trigger] items[i])
            &&& forall|i: int| 0 <= i < v.shapes.len() ==> drawable(#[trigger] v.shapes[i])
        }),
        tree_list(t, "shapes"@) is None ==> geometry_of(t) is Err,
        (tree_list(t, "shapes"@) matches Some(items) && exists|i: int|
            1 <= i < items.len() && member_i64(#[trigger] items[i], "type"@) != 1 && member_i64(
                items[i],
                "type"@,
            ) != 16) ==> geometry_of(t) is Err,
{
    if tree_list(t, "shapes"@) is Some {
        let items = tree_list(t, "shapes"@).unwrap();
        if items.len() > 0 {
            let rest = items.drop_first();
            lemma_shapes_read_in_order(rest);
            if exists|i: int|
                1 <= i < items.len() && member_i64(#[trigger] items[i], "type"@) != 1
                    && member_i64(items[i], "type"@) != 16 {
                let i = choose|i: int|
                    1 <= i < items.len() && member_i64(#[trigger] items[i], "type"@) != 1
                        && member_i64(items[i], "type"@) != 16;
                assert(rest[i - 1] == items[i]);
                assert(shapes_of(rest) is Err);
            }
            if geometry_of(t) is Ok {
                let v = geometry_of(t).unwrap();
                let found = shapes_of(rest).unwrap();
                let before = if v.background.a > 0 {
                    1int
                } else {
                    0
                };
                assert forall|i: int| 1 <= i < items.len() implies reads(
                    v.shapes[i - 1 + before],
                    #[trigger] items[i],
                ) by {
                    assert(rest[i - 1] == items[i]);
                    assert(v.shapes[i - 1 + before] == found[i - 1]);
                    assert(reads(found[i - 1], rest[i - 1]));
                }
                assert forall|i: int| 0 <= i < v.shapes.len() implies drawable(
                    #[trigger] v.shapes[i],
                ) by {
                    if i >= before {
                        assert(reads(v.shapes[i], items[i + 1 - before]));
                    }
                }
            }
        }
    }
}

/// What is wrong with an entry for a shape: another kind than an ellipse or a rectangle,
/// no list of numbers, or no list of channels, looked at in this order.
pub open spec fn complaint(t: JsonTree) -> Option<GeometryError> {
    if member_i64(t, "type"@) != 1 && member_i64(t, "type"@) != 16 {
        Some(GeometryError::Unsupported)
    } else if tree_list(t, "data"@) is None {
        Some(GeometryError::BadData)
    } else if tree_list(t, "color"@) is None {
        Some(GeometryError::BadColor)
    } else {
        None
    }
}

/// Whether the first entry of a document is a head: four numbers, a kind above zero and
/// four channels.
pub open spec fn has_head(items: Seq<JsonTree>) -> bool {
    &&& items.len() > 0
    &&& tree_list(items[0], "data"@) matches Some(d) && d.len() == 4
    &&& member_i64(items[0], "type"@) > 0
    &&& tree_list(items[0], "color"@) matches Some(c) && c.len() == 4
}

proof fn lemma_first_complaint(items: Seq<JsonTree>, k: int)
    requires
        0 <= k <= items.len(),
        forall|i: int| 0 <= i < k ==> complaint(#[trigger] items[i]) is None,
        k < items.len() ==> complaint(items[k]) is Some,
    ensures
        k < items.len() ==> shapes_of(items) == Err::<Seq<Shape>, GeometryError>(
            complaint(items[k]).unwrap(),
        ),
        k == items.len() ==> shapes_of(items) is Ok,
    decreases items.len(),
{
    if items.len() > 0 {
        let front = items.drop_last();
        if k < items.len() - 1 {
            assert(front[k] == items[k]);
            lemma_first_complaint(front, k);
        } else {
            assert forall|i: int| 0 <= i < front.len() implies complaint(#[trigger] front[i])
                is None by {
                assert(front[i] == items[i]);
            }
            lemma_first_complaint(front, front.len() as int);
            assert(items.last() == items[items.len() - 1]);
            if k == items.len() {
                assert(complaint(items[items.len() - 1]) is None);
            }
        }
    }
}

/// Why a document is refused: it has no list of shapes, the list is empty, its first entry
/// is no head, an entry behind it is wrong (the first such decides), or nothing is left
/// to draw. Any other is read.
pub proof fn law_geometry_is_refused_for_a_reason(t: JsonTree, k: int)
    requires
        tree_list(t, "shapes"@) matches Some(items) ==> items.len() > 0 ==> {
            &&& 1 <= k <= items.len()
            &&& forall|i: int| 1 <= i < k ==> complaint(#[trigger] items[i]) is None
            &&& k < items.len() ==> complaint(items[k]) is Some
        },
    ensures
        match tree_list(t, "shapes"@) {
            None => geometry_of(t) == Err::<GeometryView, GeometryError>(
                GeometryError::NotGeometry,
            ),
            Some(items) => if items.len() == 0 {
                geometry_of(t) == Err::<GeometryView, GeometryError>(GeometryError::NoShapes)
            } else if !has_head(items) {
                geometry_of(t) == Err::<GeometryView, GeometryError>(GeometryError::NotGeometry)
            } else if k < items.len() {
                geometry_of(t) == Err::<GeometryView, GeometryError>(complaint(items[k]).unwrap())
            } else if items.len() == 1 && within_byte(
                whole_of(tree_list(items[0], "color"@).unwrap()[3]),
            ) == 0 {
                geometry_of(t) == Err::<GeometryView, GeometryError>(GeometryError::NoShapes)
            } else {
                geometry_of(t) is Ok
            },
        },
{
    if tree_list(t, "shapes"@) is Some {
        let items = tree_list(t, "shapes"@).unwrap();
        if items.len() > 0 {
            let rest = items.drop_first();
            assert forall|i: int| 0 <= i < k - 1 implies complaint(#[trigger] rest[i]) is None by {
                assert(rest[i] == items[i + 1]);
            }
            if k < items.len() {
                assert(rest[k - 1] == items[k]);
            }
            lemma_first_complaint(rest, k - 1);
            lemma_shapes_read_in_order(rest);
        }
    }
}

/// A number with a fraction loses it: what is read is the whole number at or next to it
/// on the side of zero, held within the bounds. `b` are the bits of a double that is
/// neither tiny nor infinite.
pub proof fn law_fraction_is_cut_off(b: u64, n: int)
    requires
        b < 0x8000_0000_0000_0000,
        0 < (b / 0x10_0000_0000_0000) % 2048 < 2047,
        n >= 0,
        ({
            let e = ((b / 0x10_0000_0000_0000) % 2048) as nat;
            let m = 0x10_0000_0000_0000 + b % 0x10_0000_0000_0000;
            n * pow2(1075) <= m * pow2(e) < (n + 1) * pow2(1075)
        }),
    ensures
        double_clamped(b, i64::MIN as int, i64::MAX as int) == (if n <= i64::MAX {
            n
        } else {
            i64::MAX as int
        }),
        double_clamped(b, 0, u64::MAX as int) == (if n <= u64::MAX {
            n
        } else {
            u64::MAX as int
        }),
{
    let e = ((b / 0x10_0000_0000_0000) % 2048) as nat;
    let m = (0x10_0000_0000_0000 + b % 0x10_0000_0000_0000) as int;
    if e >= 1075 {
        let x = m * pow2((e - 1075) as nat);
        lemma_pow2_adds(1075, (e - 1075) as nat);
        lemma_pow2_pos(1075);
        let q = pow2(1075) as int;
        assert(m * pow2(e) == x * q) by (nonlinear_arith)
            requires
                pow2(e) == q * pow2((e - 1075) as nat),
                x == m * pow2((e - 1075) as nat),
        ;
        assert(x == n) by (nonlinear_arith)
            requires
                n * q <= x * q < (n + 1) * q,
                q > 0,
        ;
    } else {
        let q = pow2((1075 - e) as nat) as int;
        let f = pow2(e) as int;
        lemma_pow2_adds(e, (1075 - e) as nat);
        lemma_pow2_pos(e);
        lemma_pow2_pos((1075 - e) as nat);
        assert(n * q <= m < (n + 1) * q) by (nonlinear_arith)
            requires
                n * pow2(1075) <= m * f < (n + 1) * pow2(1075),
                pow2(1075) == f * q,
                f > 0,
        ;
        assert(m / q == n) by (nonlinear_arith)
            requires
                n * q <= m < (n + 1) * q,
                q > 0,
        ;
    }
}

/// A preview needs an image of at least one pixel and of at most 64000000. `b` and `c` are
/// the bits of its width and height.
pub proof fn law_preview_needs_a_fitting_size(d: Seq<JsonTree>, b: u64, c: u64, w: int, h: int)
    requires
        d.len() > 3,
        stored_as(d[2], b),
        stored_as(d[3], c),
        double_is(b, w),
        double_is(c, h),
        0 <= w <= u64::MAX,
        0 <= h <= u64::MAX,
    ensures
        w == 0 || h == 0 || w * h > 64000000 ==> preview_size(d) is Nothing,
        w > 0 && h > 0 && w * h <= 64000000 ==> preview_size(d) == Reading::Found((w, h)),
{
    lemma_whole_double(b, w);
    lemma_whole_double(c, h);
}

/// A half axis is taken as it is from one on, and a smaller one as one.
pub proof fn law_half_axes_are_at_least_one(n: i32)
    ensures
        half_axis(n) >= 1,
        n >= 1 ==> half_axis(n) == n,
        n < 1 ==> half_axis(n) == 1,
{
}

} // verus!
