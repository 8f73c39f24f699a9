//! The geometry that the generator writes, and what the importer reads in it.

use vstd::prelude::*;
use vstd::string::*;

use crate::device::{Color, Coordinate};
use crate::geometry::{
    backdrop, color_of, cut_short, geometry_of, geometry_readable, readable, shape_of, shapes_of,
    GeometryView, Shape, ELLIPSE, RECTANGLE,
};
use crate::importer::read_document;
use crate::json::{
    conforms, double_is, is_whole, json_document, members_syntax, member_i64, plain_syntax,
    simple_name, syntax_means, syntax_text, tree_items, tree_list, write_json, JsonOut, JsonSyntax,
    JsonTree,
};

verus! {

/// A shape as the generator writes it.
#[derive(Clone, Copy, Debug, PartialEq, Eq, Structural)]
pub struct DrawnShape {
    /// A rectangle, or else an ellipse.
    pub rect: bool,
    pub cx: i32,
    pub cy: i32,
    pub rx: i32,
    pub ry: i32,
    pub deg: i32,
    pub r: u8,
    pub g: u8,
    pub b: u8,
}

/// Whether a shape is one that the generator writes: half axes of at least one, and an
/// angle of a full turn at most.
pub open spec fn well_drawn(s: DrawnShape) -> bool {
    s.rx >= 1 && s.ry >= 1 && 0 <= s.deg <= 360
}

/// At least one.
pub open spec fn half_axis(n: i32) -> i32 {
    if n < 1 {
        1
    } else {
        n
    }
}

impl DrawnShape {
    /// The shape with these numbers; a half axis below one becomes one.
    pub fn new(
        rect: bool,
        cx: i32,
        cy: i32,
        rx: i32,
        ry: i32,
        deg: i32,
        r: u8,
        g: u8,
        b: u8,
    ) -> (s: DrawnShape)
        requires
            0 <= deg <= 360,
        ensures
            s == (DrawnShape { rect, cx, cy, rx: half_axis(rx), ry: half_axis(ry), deg, r, g, b }),
            well_drawn(s),
    {
        let rx: i32 = if rx < 1 {
            1
        } else {
            rx
        };
        let ry: i32 = if ry < 1 {
            1
        } else {
            ry
        };
        DrawnShape { rect, cx, cy, rx, ry, deg, r, g, b }
    }
}

/// Whether every shape of a drawing is one that the generator writes.
pub open spec fn all_well_drawn(d: Drawing) -> bool {
    forall|i: int| 0 <= i < d.shapes@.len() ==> well_drawn(#[trigger] d.shapes@[i])
}

/// The shapes of an image as the generator writes them.
#[derive(Debug)]
pub struct Drawing {
    pub w: u32,
    pub h: u32,
    /// The background.
    pub r: i32,
    pub g: i32,
    pub b: i32,
    pub a: u8,
    /// How opaque the shapes are.
    pub shape_alpha: u8,
    pub shapes: Vec<DrawnShape>,
}

/// A list of whole numbers.
pub open spec fn numbers_syntax(v: Seq<int>) -> JsonSyntax {
    JsonSyntax::Array(Seq::new(v.len(), |i: int| JsonSyntax::Whole(v[i])))
}

/// A shape of some kind, with its numbers and its colour.
pub open spec fn entry_syntax(kind: int, data: Seq<int>, color: Seq<int>) -> JsonSyntax {
    JsonSyntax::Object(
        seq![
            ("type"@, JsonSyntax::Whole(kind)),
            ("data"@, numbers_syntax(data)),
            ("color"@, numbers_syntax(color)),
        ],
    )
}

/// The head of a geometry: the size of the image and the background.
pub open spec fn head_syntax(d: Drawing) -> JsonSyntax {
    entry_syntax(
        8,
        seq![0int, 0int, d.w as int, d.h as int],
        seq![d.r as int, d.g as int, d.b as int, d.a as int],
    )
}

/// The kind of a shape.
pub open spec fn kind_of(s: DrawnShape) -> int {
    if s.rect {
        RECTANGLE as int
    } else {
        ELLIPSE as int
    }
}

/// A shape of a geometry.
pub open spec fn shape_syntax(s: DrawnShape, alpha: u8) -> JsonSyntax {
    entry_syntax(
        kind_of(s),
        seq![s.cx as int, s.cy as int, s.rx as int, s.ry as int, s.deg as int],
        seq![s.r as int, s.g as int, s.b as int, alpha as int],
    )
}

/// The entries of a geometry: the head and behind it the shapes.
pub open spec fn entries_syntax(d: Drawing) -> Seq<JsonSyntax> {
    Seq::new(
        d.shapes@.len() + 1,
        |i: int|
            if i == 0 {
                head_syntax(d)
            } else {
                shape_syntax(d.shapes@[i - 1], d.shape_alpha)
            },
    )
}

/// The document that holds the shapes.
pub open spec fn drawing_syntax(d: Drawing) -> JsonSyntax {
    JsonSyntax::Object(seq![("shapes"@, JsonSyntax::Array(entries_syntax(d)))])
}

/// A list of whole numbers.
fn numbers_out(v: Vec<i64>) -> (r: JsonOut)
    ensures
        r.syntax() == numbers_syntax(v@.map_values(|n: i64| n as int)),
{
    let mut out: Vec<JsonOut> = Vec::new();
    for i in 0..v.len()
        invariant
            out@.len() == i,
            forall|j: int|
                0 <= j < i ==> (#[trigger] out@[j]).syntax() == JsonSyntax::Whole(v@[j] as int),
    {
        out.push(JsonOut::Whole(v[i]));
    }
    let r = JsonOut::Array(out);
    assert(r.syntax()->Array_0 =~= numbers_syntax(v@.map_values(|n: i64| n as int))->Array_0);
    r
}

/// A shape of some kind, with its numbers and its colour.
fn entry_out(kind: i64, data: Vec<i64>, color: Vec<i64>) -> (r: JsonOut)
    ensures
        r.syntax() == entry_syntax(
            kind as int,
            data@.map_values(|n: i64| n as int),
            color@.map_values(|n: i64| n as int),
        ),
{
    let mut members: Vec<(&'static str, JsonOut)> = Vec::new();
    members.push(("type", JsonOut::Whole(kind)));
    members.push(("data", numbers_out(data)));
    members.push(("color", numbers_out(color)));
    let ghost all = members@;
    let r = JsonOut::Object(members);
    proof {
        reveal_with_fuel(members_syntax, 2);
        assert(all[0].1.syntax() == JsonSyntax::Whole(kind as int));
        assert(members_syntax(all)[0] == (all[0].0@, all[0].1.syntax()));
        assert(members_syntax(all)[1] == (all[1].0@, all[1].1.syntax()));
        assert(members_syntax(all)[2] == (all[2].0@, all[2].1.syntax()));
        assert(r.syntax() == JsonSyntax::Object(members_syntax(all)));
        assert(r.syntax()->Object_0 =~= entry_syntax(
            kind as int,
            data@.map_values(|n: i64| n as int),
            color@.map_values(|n: i64| n as int),
        )->Object_0);
    }
    r
}

/// Writes the document that holds the shapes.
pub fn geometry_text(d: &Drawing) -> (r: String)
    requires
        all_well_drawn(*d),
    ensures
        r@ == syntax_text(drawing_syntax(*d)),
{
    let mut entries: Vec<JsonOut> = Vec::new();
    let data: Vec<i64> = vec![0, 0, d.w as i64, d.h as i64];
    let color: Vec<i64> = vec![d.r as i64, d.g as i64, d.b as i64, d.a as i64];
    assert(data@.map_values(|n: i64| n as int) =~= seq![0int, 0int, d.w as int, d.h as int]);
    assert(color@.map_values(|n: i64| n as int) =~= seq![
        d.r as int,
        d.g as int,
        d.b as int,
        d.a as int,
    ]);
    entries.push(entry_out(8, data, color));
    for i in 0..d.shapes.len()
        invariant
            entries@.len() == i + 1,
            forall|j: int| 0 <= j <= i ==> (#[trigger] entries@[j]).syntax() == entries_syntax(*d)[j],
    {
        let s = d.shapes[i];
        let kind: i64 = if s.rect {
            RECTANGLE
        } else {
            ELLIPSE
        };
        let data: Vec<i64> = vec![s.cx as i64, s.cy as i64, s.rx as i64, s.ry as i64, s.deg as i64];
        let color: Vec<i64> = vec![s.r as i64, s.g as i64, s.b as i64, d.shape_alpha as i64];
        assert(data@.map_values(|n: i64| n as int) =~= seq![
            s.cx as int,
            s.cy as int,
            s.rx as int,
            s.ry as int,
            s.deg as int,
        ]);
        assert(color@.map_values(|n: i64| n as int) =~= seq![
            s.r as int,
            s.g as int,
            s.b as int,
            d.shape_alpha as int,
        ]);
        entries.push(entry_out(kind, data, color));
    }
    let list = JsonOut::Array(entries);
    assert(list.syntax()->Array_0 =~= entries_syntax(*d));
    let mut members: Vec<(&'static str, JsonOut)> = Vec::new();
    members.push(("shapes", list));
    let ghost all = members@;
    let doc = JsonOut::Object(members);
    proof {
        reveal_with_fuel(members_syntax, 2);
        assert(members_syntax(all)[0] == (all[0].0@, all[0].1.syntax()));
        assert(doc.syntax() == JsonSyntax::Object(members_syntax(all)));
        assert(doc.syntax()->Object_0 =~= drawing_syntax(*d)->Object_0);
    }
    let mut s = String::new();
    write_json(&mut s, &doc);
    assert(s@ =~= syntax_text(drawing_syntax(*d)));
    s
}

/// Whether a coordinate stores exactly the whole number `n`.
pub open spec fn stores(c: Coordinate, n: int) -> bool {
    c matches Coordinate::Bits(b) && double_is(b, n)
}

/// Whether the importer's shape is the one that the generator wrote.
pub open spec fn draws(shape: Shape, s: DrawnShape, alpha: u8) -> bool {
    &&& shape.type_id == kind_of(s)
    &&& stores(shape.x, s.cx as int)
    &&& stores(shape.y, s.cy as int)
    &&& stores(shape.w, s.rx as int)
    &&& stores(shape.h, s.ry as int)
    &&& stores(shape.rot_deg, s.deg as int)
    &&& shape.color == (Color { r: s.r, g: s.g, b: s.b, a: alpha })
    &&& !shape.is_mask
}

/// A whole number held within a byte.
pub open spec fn byte_of(n: int) -> u8 {
    if n < 0 {
        0
    } else if n > 255 {
        255
    } else {
        n as u8
    }
}

/// The background that the importer reads.
pub open spec fn background_of(d: Drawing) -> Color {
    Color {
        r: byte_of(d.r as int),
        g: byte_of(d.g as int),
        b: byte_of(d.b as int),
        a: d.a,
    }
}

/// Whether a geometry is what the generator wrote: its size, its background, a
/// rectangle in the colour of the background where that shows, and behind it each
/// shape in its place.
pub open spec fn same_drawing(v: GeometryView, d: Drawing) -> bool {
    let before = if d.a > 0 {
        1int
    } else {
        0
    };
    &&& v.image_w == d.w
    &&& v.image_h == d.h
    &&& v.background == background_of(d)
    &&& v.shapes.len() == d.shapes@.len() + before
    &&& d.a > 0 ==> v.shapes[0] == backdrop(v.image_w, v.image_h, v.background)
    &&& forall|i: int|
        0 <= i < d.shapes@.len() ==> draws(
            v.shapes[i + before],
            #[trigger] d.shapes@[i],
            d.shape_alpha,
        )
}

/// Whether the importer's shape has half axes of at least one and an angle of a full
/// turn at most, all of them whole numbers.
pub open spec fn well_sized(shape: Shape) -> bool {
    exists|w: int, h: int, deg: int| #[trigger]
        sized(shape, w, h, deg) && w >= 1 && h >= 1 && 0 <= deg <= 360
}

/// Whether the importer's shape has these half axes and this angle.
pub open spec fn sized(shape: Shape, w: int, h: int, deg: int) -> bool {
    stores(shape.w, w) && stores(shape.h, h) && stores(shape.rot_deg, deg)
}

/// Whether an array holds the whole numbers `v`.
pub open spec fn holds_numbers(t: Option<Seq<JsonTree>>, v: Seq<int>) -> bool {
    &&& t matches Some(parts)
    &&& parts.len() == v.len()
    &&& forall|i: int| 0 <= i < v.len() ==> is_whole(#[trigger] parts[i], v[i])
}

/// Whether a tree is a shape of some kind, with its numbers and its colour.
pub open spec fn entry_means(t: JsonTree, kind: int, data: Seq<int>, color: Seq<int>) -> bool {
    &&& member_i64(t, "type"@) == kind
    &&& holds_numbers(tree_list(t, "data"@), data)
    &&& holds_numbers(tree_list(t, "color"@), color)
}

/// Whether every number fits in 64 bits with a sign.
spec fn small(v: Seq<int>) -> bool {
    forall|i: int| 0 <= i < v.len() ==> i64::MIN <= #[trigger] v[i] <= i64::MAX
}

proof fn lemma_numbers(v: Seq<int>, t: JsonTree, depth: nat)
    requires
        depth >= 1,
        syntax_means(numbers_syntax(v), t, depth),
    ensures
        holds_numbers(tree_items(t), v),
{
    let items = numbers_syntax(v)->Array_0;
    let parts = t->Array_0;
    assert forall|i: int| 0 <= i < v.len() implies is_whole(#[trigger] parts[i], v[i]) by {
        assert(syntax_means(items[i], parts[i], (depth - 1) as nat));
    }
}

proof fn lemma_names()
    ensures
        "type"@ != "data"@,
        "type"@ != "color"@,
        "data"@ != "color"@,
        simple_name("type"@),
        simple_name("data"@),
        simple_name("color"@),
        simple_name("shapes"@),
{
    reveal_strlit("type");
    reveal_strlit("data");
    reveal_strlit("color");
    reveal_strlit("shapes");
    assert("type"@[0] != "data"@[0]);
    assert("type"@.len() != "color"@.len());
    assert("data"@.len() != "color"@.len());
}

proof fn lemma_entry(kind: int, data: Seq<int>, color: Seq<int>, t: JsonTree, depth: nat)
    requires
        depth >= 2,
        i64::MIN <= kind <= i64::MAX,
        syntax_means(entry_syntax(kind, data, color), t, depth),
    ensures
        entry_means(t, kind, data, color),
{
    let members = entry_syntax(kind, data, color)->Object_0;
    let parts = t->Object_0;
    let below = (depth - 1) as nat;
    assert(syntax_means(members[0].1, parts[members[0].0], below));
    assert(syntax_means(members[1].1, parts[members[1].0], below));
    assert(syntax_means(members[2].1, parts[members[2].0], below));
    lemma_numbers(data, parts["data"@], below);
    lemma_numbers(color, parts["color"@], below);
}

proof fn lemma_plain_numbers(v: Seq<int>, depth: nat)
    requires
        depth >= 1,
        small(v),
    ensures
        plain_syntax(numbers_syntax(v), depth),
{
    let items = numbers_syntax(v)->Array_0;
    assert forall|i: int| 0 <= i < items.len() implies plain_syntax(
        #[trigger] items[i],
        (depth - 1) as nat,
    ) by {
        assert(items[i] == JsonSyntax::Whole(v[i]));
    }
}

proof fn lemma_plain_entry(kind: int, data: Seq<int>, color: Seq<int>, depth: nat)
    requires
        depth >= 2,
        i64::MIN <= kind <= i64::MAX,
        small(data),
        small(color),
    ensures
        plain_syntax(entry_syntax(kind, data, color), depth),
{
    lemma_names();
    let below = (depth - 1) as nat;
    lemma_plain_numbers(data, below);
    lemma_plain_numbers(color, below);
    let members = entry_syntax(kind, data, color)->Object_0;
    assert(plain_syntax(members[0].1, below));
    assert forall|i: int| 0 <= i < members.len() implies simple_name((#[trigger] members[i]).0)
        && plain_syntax(members[i].1, below) by {
        assert(i == 0 || i == 1 || i == 2);
    }
    assert forall|i: int, j: int| 0 <= i < j < members.len() implies (#[trigger] members[i]).0 != (
    #[trigger] members[j]).0 by {
        assert(i == 0 || i == 1);
        assert(j == 1 || j == 2);
    }
}

pub proof fn lemma_plain_drawing(d: Drawing)
    ensures
        plain_syntax(drawing_syntax(d), 100),
{
    lemma_names();
    let items = entries_syntax(d);
    assert forall|i: int| 0 <= i < items.len() implies plain_syntax(#[trigger] items[i], 98) by {
        if i == 0 {
            lemma_plain_entry(
                8,
                seq![0int, 0int, d.w as int, d.h as int],
                seq![d.r as int, d.g as int, d.b as int, d.a as int],
                98,
            );
        } else {
            let s = d.shapes@[i - 1];
            lemma_plain_entry(
                kind_of(s),
                seq![s.cx as int, s.cy as int, s.rx as int, s.ry as int, s.deg as int],
                seq![s.r as int, s.g as int, s.b as int, d.shape_alpha as int],
                98,
            );
        }
    }
    assert(plain_syntax(JsonSyntax::Array(items), 99));
    let members = drawing_syntax(d)->Object_0;
    assert(plain_syntax(members[0].1, 99));
}

/// A shape is read as it was written.
proof fn lemma_shape_read(t: JsonTree, s: DrawnShape, alpha: u8)
    requires
        entry_means(
            t,
            kind_of(s),
            seq![s.cx as int, s.cy as int, s.rx as int, s.ry as int, s.deg as int],
            seq![s.r as int, s.g as int, s.b as int, alpha as int],
        ),
    ensures
        shape_of(t) matches Ok(shape) && draws(shape, s, alpha),
        !cut_short(t),
{
    let d = tree_list(t, "data"@).unwrap();
    let c = tree_list(t, "color"@).unwrap();
    assert(is_whole(d[0], s.cx as int));
    assert(is_whole(d[1], s.cy as int));
    assert(is_whole(d[2], s.rx as int));
    assert(is_whole(d[3], s.ry as int));
    assert(is_whole(d[4], s.deg as int));
    assert(is_whole(c[0], s.r as int));
    assert(is_whole(c[1], s.g as int));
    assert(is_whole(c[2], s.b as int));
    assert(is_whole(c[3], alpha as int));
}

/// Whether entries are the shapes that the generator wrote.
pub open spec fn entries_mean(items: Seq<JsonTree>, shapes: Seq<DrawnShape>, alpha: u8) -> bool {
    &&& items.len() == shapes.len()
    &&& forall|i: int|
        0 <= i < items.len() ==> entry_means(
            #[trigger] items[i],
            kind_of(shapes[i]),
            seq![
                shapes[i].cx as int,
                shapes[i].cy as int,
                shapes[i].rx as int,
                shapes[i].ry as int,
                shapes[i].deg as int,
            ],
            seq![
                shapes[i].r as int,
                shapes[i].g as int,
                shapes[i].b as int,
                alpha as int,
            ],
        )
}

proof fn lemma_shapes_read(items: Seq<JsonTree>, shapes: Seq<DrawnShape>, alpha: u8)
    requires
        entries_mean(items, shapes, alpha),
    ensures
        readable(items),
        shapes_of(items) matches Ok(s) && s.len() == shapes.len() && forall|i: int|
            0 <= i < shapes.len() ==> draws(s[i], #[trigger] shapes[i], alpha),
    decreases items.len(),
{
    if items.len() > 0 {
        let n = items.len() - 1;
        assert forall|i: int| 0 <= i < n implies #[trigger] items.drop_last()[i] == items[i] by {}
        assert(entries_mean(items.drop_last(), shapes.drop_last(), alpha));
        lemma_shapes_read(items.drop_last(), shapes.drop_last(), alpha);
        assert(items[n] == items.last());
        lemma_shape_read(items.last(), shapes[n], alpha);
        let before = shapes_of(items.drop_last()).unwrap();
        let s = shapes_of(items).unwrap();
        assert forall|i: int| 0 <= i < shapes.len() implies draws(
            s[i],
            #[trigger] shapes[i],
            alpha,
        ) by {
            if i < n {
                assert(shapes.drop_last()[i] == shapes[i]);
                assert(s[i] == before[i]);
            }
        }
    }
}

/// Whether a tree holds the entries of a drawing.
pub open spec fn document_means(t: JsonTree, d: Drawing) -> bool {
    &&& tree_list(t, "shapes"@) matches Some(items)
    &&& items.len() == d.shapes@.len() + 1
    &&& entry_means(
        items[0],
        8,
        seq![0int, 0int, d.w as int, d.h as int],
        seq![d.r as int, d.g as int, d.b as int, d.a as int],
    )
    &&& entries_mean(items.drop_first(), d.shapes@, d.shape_alpha)
}

proof fn lemma_entries(d: Drawing, items: Seq<JsonTree>)
    requires
        items.len() == entries_syntax(d).len(),
        forall|i: int|
            0 <= i < items.len() ==> syntax_means(
                #[trigger] entries_syntax(d)[i],
                items[i],
                98,
            ),
    ensures
        entries_mean(items.drop_first(), d.shapes@, d.shape_alpha),
{
    let rest = items.drop_first();
    assert forall|i: int| 0 <= i < rest.len() implies entry_means(
        #[trigger] rest[i],
        kind_of(d.shapes@[i]),
        seq![
            d.shapes@[i].cx as int,
            d.shapes@[i].cy as int,
            d.shapes@[i].rx as int,
            d.shapes@[i].ry as int,
            d.shapes@[i].deg as int,
        ],
        seq![
            d.shapes@[i].r as int,
            d.shapes@[i].g as int,
            d.shapes@[i].b as int,
            d.shape_alpha as int,
        ],
    ) by {
        let s = d.shapes@[i];
        assert(entries_syntax(d)[i + 1] == shape_syntax(s, d.shape_alpha));
        assert(rest[i] == items[i + 1]);
        lemma_entry(
            kind_of(s),
            seq![s.cx as int, s.cy as int, s.rx as int, s.ry as int, s.deg as int],
            seq![s.r as int, s.g as int, s.b as int, d.shape_alpha as int],
            items[i + 1],
            98,
        );
    }
}

pub proof fn lemma_document(d: Drawing, t: JsonTree)
    requires
        syntax_means(drawing_syntax(d), t, 100),
    ensures
        document_means(t, d),
{
    let members = drawing_syntax(d)->Object_0;
    let entries = entries_syntax(d);
    let list = t->Object_0[members[0].0];
    assert(syntax_means(members[0].1, list, 99));
    let items = list->Array_0;
    assert(members[0].1 == JsonSyntax::Array(entries));
    assert forall|i: int| 0 <= i < items.len() implies syntax_means(
        #[trigger] entries[i],
        items[i],
        98,
    ) by {}
    assert(entries[0] == head_syntax(d));
    lemma_entry(
        8,
        seq![0int, 0int, d.w as int, d.h as int],
        seq![d.r as int, d.g as int, d.b as int, d.a as int],
        items[0],
        98,
    );
    lemma_entries(d, items);
}

proof fn lemma_drawing_read(d: Drawing, t: JsonTree)
    requires
        document_means(t, d),
        d.shapes@.len() > 0 || d.a > 0,
    ensures
        geometry_readable(t),
        geometry_of(t) matches Ok(v) && same_drawing(v, d),
{
    let items = tree_list(t, "shapes"@).unwrap();
    let rest = items.drop_first();
    lemma_shapes_read(rest, d.shapes@, d.shape_alpha);
    let size = tree_list(items[0], "data"@).unwrap();
    let c = tree_list(items[0], "color"@).unwrap();
    assert(is_whole(size[2], d.w as int));
    assert(is_whole(size[3], d.h as int));
    assert(is_whole(c[0], d.r as int));
    assert(is_whole(c[1], d.g as int));
    assert(is_whole(c[2], d.b as int));
    assert(is_whole(c[3], d.a as int));
    assert(color_of(c) == background_of(d));
    let v = geometry_of(t).unwrap();
    let found = shapes_of(rest).unwrap();
    if d.a > 0 {
        assert forall|i: int| 0 <= i < d.shapes@.len() implies draws(
            v.shapes[i + 1],
            #[trigger] d.shapes@[i],
            d.shape_alpha,
        ) by {
            assert(v.shapes[i + 1] == found[i]);
        }
    } else {
        assert forall|i: int| 0 <= i < d.shapes@.len() implies draws(
            v.shapes[i + 0],
            #[trigger] d.shapes@[i],
            d.shape_alpha,
        ) by {
            assert(v.shapes[i] == found[i]);
        }
    }
}

/// The importer reads what the generator writes: in the text of a geometry with a
/// shape or a background it finds the size, the background and every shape, each
/// number exactly, in the order in which they were written, with half axes of at least
/// one and angles of a full turn at most. The one condition is what the JSON parser
/// promises of such a text.
pub proof fn law_generated_geometry_is_imported(d: Drawing)
    requires
        all_well_drawn(d),
        conforms(syntax_text(drawing_syntax(d)), json_document(syntax_text(drawing_syntax(d)))),
        d.shapes@.len() > 0 || d.a > 0,
    ensures
        read_document(syntax_text(drawing_syntax(d))) matches Some(Ok(v)) && same_drawing(v, d)
            && forall|i: int|
            (if d.a > 0 {
                1int
            } else {
                0
            }) <= i < v.shapes.len() ==> well_sized(#[trigger] v.shapes[i]),
{
    let text = syntax_text(drawing_syntax(d));
    lemma_plain_drawing(d);
    let t = json_document(text).unwrap();
    lemma_document(d, t);
    lemma_drawing_read(d, t);
    let v = geometry_of(t).unwrap();
    let before = if d.a > 0 {
        1int
    } else {
        0
    };
    assert forall|i: int| before <= i < v.shapes.len() implies well_sized(#[trigger] v.shapes[i]) by {
        let s = d.shapes@[i - before];
        assert(draws(v.shapes[i - before + before], s, d.shape_alpha));
        assert(sized(v.shapes[i], s.rx as int, s.ry as int, s.deg as int));
    }
}

} // verus!
