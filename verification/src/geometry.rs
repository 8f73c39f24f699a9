//! Generated geometry: the shapes of an image as a document holds them.

use vstd::prelude::*;

use crate::device::{Color, Coordinate};
use crate::json::{
    conforms, json_document, member_i64, parse_json, tree_f64, tree_i64, tree_list, tree_u8, trees,
    Json, JsonTree,
};

verus! {

/// The kind of a rectangle.
pub const RECTANGLE: i64 = 1;

/// The kind of a rotated ellipse.
pub const ELLIPSE: i64 = 16;

/// How many shapes are imported at most.
pub const MOST_SHAPES: usize = 2996;

/// One shape on the canvas.
#[derive(Clone, Copy, Debug, PartialEq, Eq, Structural)]
pub struct Shape {
    pub type_id: i64,
    pub x: Coordinate,
    pub y: Coordinate,
    pub w: Coordinate,
    pub h: Coordinate,
    pub rot_deg: Coordinate,
    pub color: Color,
    pub is_mask: bool,
}

/// The shapes of an image, with its size and its background.
#[derive(Debug)]
pub struct Geometry {
    pub image_w: i64,
    pub image_h: i64,
    pub background: Color,
    pub shapes: Vec<Shape>,
}

/// A geometry, its shapes as a sequence.
pub struct GeometryView {
    pub image_w: i64,
    pub image_h: i64,
    pub background: Color,
    pub shapes: Seq<Shape>,
}

impl View for Geometry {
    type V = GeometryView;

    open spec fn view(&self) -> GeometryView {
        GeometryView {
            image_w: self.image_w,
            image_h: self.image_h,
            background: self.background,
            shapes: self.shapes@,
        }
    }
}

/// Why a document is no geometry.
#[derive(Clone, Copy, Debug, PartialEq, Eq, Structural)]
pub enum GeometryError {
    /// No JSON.
    NotJson,
    /// No list of shapes that starts with the size and the background of an image.
    NotGeometry,
    /// No shape.
    NoShapes,
    /// A shape without a list of its numbers.
    BadData,
    /// A shape without a colour.
    BadColor,
    /// A shape that is neither an ellipse nor a rectangle.
    Unsupported,
}

/// The text of an error.
pub open spec fn geometry_error_text(e: GeometryError) -> Seq<char> {
    match e {
        GeometryError::NotJson => "Not a valid .json file"@,
        GeometryError::NotGeometry => "Not a valid generated geometry .json file"@,
        GeometryError::NoShapes => "No shapes were loaded. Check your exported geometry .json"@,
        GeometryError::BadData => "bad shape data"@,
        GeometryError::BadColor => "bad shape color"@,
        GeometryError::Unsupported =>
            "Unsupported shape in geometry file (only ellipse=16 / rect=1)."@,
    }
}

impl GeometryError {
    /// The text of the error.
    pub fn text(&self) -> (r: &'static str)
        ensures
            r@ == geometry_error_text(*self),
    {
        match self {
            GeometryError::NotJson => "Not a valid .json file",
            GeometryError::NotGeometry => "Not a valid generated geometry .json file",
            GeometryError::NoShapes =>
                "No shapes were loaded. Check your exported geometry .json",
            GeometryError::BadData => "bad shape data",
            GeometryError::BadColor => "bad shape color",
            GeometryError::Unsupported =>
                "Unsupported shape in geometry file (only ellipse=16 / rect=1).",
        }
    }
}

/// The quotient without its fraction.
pub open spec fn quotient(n: int, d: int) -> int {
    if n >= 0 {
        n / d
    } else {
        -((-n) / d)
    }
}

/// Divides by two or by four, without the fraction.
pub(crate) fn part(n: i64, d: i64) -> (r: i64)
    requires
        d == 2 || d == 4,
    ensures
        r == quotient(n as int, d as int),
{
    if n >= 0 {
        n / d
    } else if n == i64::MIN {
        if d == 2 {
            -0x4000_0000_0000_0000
        } else {
            -0x2000_0000_0000_0000
        }
    } else {
        -((-n) / d)
    }
}

/// The four channels that the first items of `c` hold.
pub open spec fn color_of(c: Seq<JsonTree>) -> Color {
    Color { r: tree_u8(c[0]), g: tree_u8(c[1]), b: tree_u8(c[2]), a: tree_u8(c[3]) }
}

/// Reads the four channels.
pub fn read_color(c: &Vec<Json>) -> (r: Color)
    requires
        c.len() >= 4,
    ensures
        r == color_of(trees(c@)),
{
    Color { r: c[0].as_u8(), g: c[1].as_u8(), b: c[2].as_u8(), a: c[3].as_u8() }
}

/// Whether an entry is the head of a geometry: it has a kind, four numbers and a
/// colour.
pub open spec fn head_like(head: JsonTree) -> bool {
    &&& tree_list(head, "data"@) matches Some(d) && d.len() == 4
    &&& member_i64(head, "type"@) > 0
    &&& tree_list(head, "color"@) matches Some(c) && c.len() == 4
}

/// The rectangle that covers the image in the colour of the background.
pub open spec fn backdrop(image_w: i64, image_h: i64, background: Color) -> Shape {
    Shape {
        type_id: RECTANGLE,
        x: Coordinate::Whole(quotient(image_w as int, 2) as i64),
        y: Coordinate::Whole(quotient(image_h as int, 2) as i64),
        w: Coordinate::Whole(image_w),
        h: Coordinate::Whole(image_h),
        rot_deg: Coordinate::Whole(0),
        color: background,
        is_mask: false,
    }
}

/// The shape that an entry after the head holds.
pub open spec fn shape_of(t: JsonTree) -> Result<Shape, GeometryError> {
    let kind = member_i64(t, "type"@);
    if kind != ELLIPSE && kind != RECTANGLE {
        Err(GeometryError::Unsupported)
    } else {
        match (tree_list(t, "data"@), tree_list(t, "color"@)) {
            (None, _) => Err(GeometryError::BadData),
            (Some(d), None) => Err(GeometryError::BadColor),
            (Some(d), Some(c)) => Ok(
                Shape {
                    type_id: kind as i64,
                    x: Coordinate::Bits(tree_f64(d[0])),
                    y: Coordinate::Bits(tree_f64(d[1])),
                    w: Coordinate::Bits(tree_f64(d[2])),
                    h: Coordinate::Bits(tree_f64(d[3])),
                    rot_deg: Coordinate::Bits(tree_f64(d[4])),
                    color: color_of(c),
                    is_mask: false,
                },
            ),
        }
    }
}

/// Whether an entry has the lists of a shape and one of them is too short for it.
pub open spec fn cut_short(t: JsonTree) -> bool {
    &&& shape_of(t) is Ok
    &&& tree_list(t, "data"@).unwrap().len() < 5 || tree_list(t, "color"@).unwrap().len() < 4
}

/// The shapes that entries hold; the first entry that is none decides the error.
pub open spec fn shapes_of(items: Seq<JsonTree>) -> Result<Seq<Shape>, GeometryError>
    decreases items.len(),
{
    if items.len() == 0 {
        Ok(Seq::empty())
    } else {
        match shapes_of(items.drop_last()) {
            Err(e) => Err(e),
            Ok(before) => match shape_of(items.last()) {
                Err(e) => Err(e),
                Ok(s) => Ok(before.push(s)),
            },
        }
    }
}

/// Whether no entry before the first error is cut short.
pub open spec fn readable(items: Seq<JsonTree>) -> bool
    decreases items.len(),
{
    items.len() > 0 ==> {
        &&& readable(items.drop_last())
        &&& shapes_of(items.drop_last()) is Ok ==> !cut_short(items.last())
    }
}

/// Whether the entries of a document that decide what it holds are not cut short.
pub open spec fn geometry_readable(doc: JsonTree) -> bool {
    match tree_list(doc, "shapes"@) {
        Some(items) => items.len() > 0 && head_like(items[0]) ==> readable(items.drop_first()),
        None => true,
    }
}

/// The geometry that a document holds.
pub open spec fn geometry_of(doc: JsonTree) -> Result<GeometryView, GeometryError> {
    match tree_list(doc, "shapes"@) {
        None => Err(GeometryError::NotGeometry),
        Some(items) => if items.len() == 0 {
            Err(GeometryError::NoShapes)
        } else if !head_like(items[0]) {
            Err(GeometryError::NotGeometry)
        } else {
            let size = tree_list(items[0], "data"@).unwrap();
            let image_w = tree_i64(size[2]) as i64;
            let image_h = tree_i64(size[3]) as i64;
            let background = color_of(tree_list(items[0], "color"@).unwrap());
            match shapes_of(items.drop_first()) {
                Err(e) => Err(e),
                Ok(rest) => {
                    let shapes = if background.a > 0 {
                        seq![backdrop(image_w, image_h, background)] + rest
                    } else {
                        rest
                    };
                    if shapes.len() == 0 {
                        Err(GeometryError::NoShapes)
                    } else {
                        Ok(GeometryView { image_w, image_h, background, shapes })
                    }
                },
            }
        },
    }
}

/// Whether `r` is the result `s`, its geometry as a view.
pub open spec fn same_geometry(
    r: Result<Geometry, GeometryError>,
    s: Result<GeometryView, GeometryError>,
) -> bool {
    match (r, s) {
        (Ok(g), Ok(v)) => g@ == v,
        (Err(a), Err(b)) => a == b,
        _ => false,
    }
}

/// Reads one entry after the head; nothing comes of one that is cut short.
fn decode_shape(entry: &Json) -> (r: Option<Result<Shape, GeometryError>>)
    ensures
        match r {
            Some(s) => !cut_short(entry.tree()) && s == shape_of(entry.tree()),
            None => cut_short(entry.tree()),
        },
{
    let kind = entry.member_as_i64("type");
    if kind != ELLIPSE && kind != RECTANGLE {
        return Some(Err(GeometryError::Unsupported));
    }
    let d = match entry.list("data") {
        Some(d) => d,
        None => return Some(Err(GeometryError::BadData)),
    };
    let c = match entry.list("color") {
        Some(c) => c,
        None => return Some(Err(GeometryError::BadColor)),
    };
    if d.len() < 5 || c.len() < 4 {
        return None;
    }
    Some(
        Ok(
            Shape {
                type_id: kind,
                x: Coordinate::Bits(d[0].as_f64()),
                y: Coordinate::Bits(d[1].as_f64()),
                w: Coordinate::Bits(d[2].as_f64()),
                h: Coordinate::Bits(d[3].as_f64()),
                rot_deg: Coordinate::Bits(d[4].as_f64()),
                color: read_color(c),
                is_mask: false,
            },
        ),
    )
}

/// A longer list of entries ends as its start does, where that is an error or an
/// entry cut short.
proof fn lemma_stops(items: Seq<JsonTree>, k: int)
    requires
        0 <= k <= items.len(),
    ensures
        !readable(items.take(k)) ==> !readable(items),
        readable(items.take(k)) && shapes_of(items.take(k)) is Err ==> shapes_of(items)
            == shapes_of(items.take(k)) && readable(items),
    decreases items.len() - k,
{
    if k < items.len() {
        assert(items.take(k + 1).drop_last() =~= items.take(k));
        lemma_stops(items, k + 1);
    } else {
        assert(items.take(k) =~= items);
    }
}

/// Reads the entries after the head of `items` behind the shapes of `out`.
fn decode_rest(items: &Vec<Json>, out: &mut Vec<Shape>) -> (r: Option<Result<(), GeometryError>>)
    requires
        items.len() > 0,
    ensures
        match r {
            Some(Ok(())) => readable(trees(items@).drop_first()) && (shapes_of(
                trees(items@).drop_first(),
            ) matches Ok(rest) && final(out)@ == old(out)@ + rest),
            Some(Err(e)) => readable(trees(items@).drop_first()) && shapes_of(
                trees(items@).drop_first(),
            ) == Err::<Seq<Shape>, GeometryError>(e),
            None => !readable(trees(items@).drop_first()),
        },
{
    let ghost rest = trees(items@).drop_first();
    let ghost before = out@;
    assert(rest.take(0) =~= Seq::<JsonTree>::empty());
    for i in 1..items.len()
        invariant
            1 <= i,
            items.len() > 0,
            rest == trees(items@).drop_first(),
            readable(rest.take(i - 1)),
            shapes_of(rest.take(i - 1)) matches Ok(s) && out@ == before + s,
    {
        proof {
            assert(rest.take(i as int).drop_last() =~= rest.take(i - 1));
            assert(rest.take(i as int).last() == items@[i as int].tree());
            lemma_stops(rest, i as int);
        }
        match decode_shape(&items[i]) {
            None => return None,
            Some(Err(e)) => return Some(Err(e)),
            Some(Ok(s)) => {
                let ghost sofar = out@;
                out.push(s);
                assert(out@ =~= before + shapes_of(rest.take(i as int)).unwrap());
            },
        }
    }
    assert(rest.take(items.len() - 1) =~= rest);
    Some(Ok(()))
}

/// Decodes a document; nothing comes of one with an entry that decides and is cut
/// short.
fn decode(doc: &Json) -> (r: Option<Result<Geometry, GeometryError>>)
    ensures
        match r {
            Some(g) => geometry_readable(doc.tree()) && same_geometry(g, geometry_of(doc.tree())),
            None => !geometry_readable(doc.tree()),
        },
{
    let items = match doc.list("shapes") {
        Some(items) => items,
        None => return Some(Err(GeometryError::NotGeometry)),
    };
    if items.len() == 0 {
        return Some(Err(GeometryError::NoShapes));
    }
    let head = &items[0];
    assert(trees(items@)[0] == head.tree());
    let kind = head.member_as_i64("type");
    let (d, c) = match (head.list("data"), head.list("color")) {
        (Some(d), Some(c)) => (d, c),
        _ => return Some(Err(GeometryError::NotGeometry)),
    };
    if d.len() != 4 || kind <= 0 || c.len() != 4 {
        return Some(Err(GeometryError::NotGeometry));
    }
    let image_w = d[2].as_i64();
    let image_h = d[3].as_i64();
    let background = read_color(c);
    let mut shapes: Vec<Shape> = Vec::new();
    if background.a > 0 {
        shapes.push(
            Shape {
                type_id: RECTANGLE,
                x: Coordinate::Whole(part(image_w, 2)),
                y: Coordinate::Whole(part(image_h, 2)),
                w: Coordinate::Whole(image_w),
                h: Coordinate::Whole(image_h),
                rot_deg: Coordinate::Whole(0),
                color: background,
                is_mask: false,
            },
        );
        assert(shapes@ =~= seq![backdrop(image_w, image_h, background)]);
    }
    match decode_rest(items, &mut shapes) {
        None => None,
        Some(Err(e)) => Some(Err(e)),
        Some(Ok(())) => {
            assert(background.a == 0 ==> shapes@ =~= shapes_of(
                trees(items@).drop_first(),
            ).unwrap());
            if shapes.len() == 0 {
                Some(Err(GeometryError::NoShapes))
            } else {
                Some(Ok(Geometry { image_w, image_h, background, shapes }))
            }
        },
    }
}

/// Decodes a document.
pub fn decode_geometry(doc: &Json) -> (r: Result<Geometry, GeometryError>)
    requires
        geometry_readable(doc.tree()),
    ensures
        same_geometry(r, geometry_of(doc.tree())),
{
    match decode(doc) {
        Some(g) => g,
        None => Err(GeometryError::NotGeometry),
    }
}

/// Reads a geometry from the text of a document; nothing comes of a document with
/// an entry that decides and is cut short.
pub fn read_geometry(text: &str) -> (r: Option<Result<Geometry, GeometryError>>)
    ensures
        match json_document(text@) {
            None => r == Some(Err::<Geometry, GeometryError>(GeometryError::NotJson)),
            Some(doc) => match r {
                Some(g) => geometry_readable(doc) && same_geometry(g, geometry_of(doc)),
                None => !geometry_readable(doc),
            },
        },
        conforms(text@, json_document(text@)),
{
    match parse_json(text) {
        None => Some(Err(GeometryError::NotJson)),
        Some(doc) => decode(&doc),
    }
}

} // verus!
