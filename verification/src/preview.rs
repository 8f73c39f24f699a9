//! What a preview of a geometry shows: the background and the ellipses.

use vstd::prelude::*;

use crate::float_bits::{double_clamped, double_to_u64};
use crate::json::{
    json_document, member_signed, parse_json, tree_list, tree_signed, trees, Json, JsonTree,
};

verus! {

/// The most pixels that a preview has.
pub const MOST_PIXELS: u64 = 64000000;

/// An ellipse of a preview; the numbers as double-precision bits.
#[derive(Clone, Copy, Debug, PartialEq, Eq, Structural)]
pub struct PreviewEllipse {
    pub cx: u64,
    pub cy: u64,
    pub w: u64,
    pub h: u64,
    pub deg: u64,
    pub r: u8,
    pub g: u8,
    pub b: u8,
}

/// A preview.
#[derive(Debug)]
pub struct Preview {
    pub w: u64,
    pub h: u64,
    pub r: u8,
    pub g: u8,
    pub b: u8,
    pub ellipses: Vec<PreviewEllipse>,
}

/// A preview, its ellipses as a sequence.
pub struct PreviewView {
    pub w: u64,
    pub h: u64,
    pub r: u8,
    pub g: u8,
    pub b: u8,
    pub ellipses: Seq<PreviewEllipse>,
}

impl View for Preview {
    type V = PreviewView;

    open spec fn view(&self) -> PreviewView {
        PreviewView {
            w: self.w,
            h: self.h,
            r: self.r,
            g: self.g,
            b: self.b,
            ellipses: self.ellipses@,
        }
    }
}

/// What comes of reading something in a document.
#[derive(Debug)]
pub enum Reading<T> {
    /// A list ends before an item that counts.
    CutShort,
    /// Something is missing or of another kind.
    Nothing,
    /// What was read.
    Found(T),
}

/// The lowest byte of a whole number.
pub open spec fn low_byte(n: i64) -> u8 {
    (n as int % 256) as u8
}

/// The lowest byte of the whole number that item `i` is; zero for anything else.
pub open spec fn byte_at(s: Seq<JsonTree>, i: int) -> u8 {
    match tree_signed(s[i]) {
        Some(n) => low_byte(n),
        None => 0,
    }
}

/// The bits of the number that item `i` is.
pub open spec fn float_at(s: Seq<JsonTree>, i: int) -> Reading<u64> {
    if i >= s.len() {
        Reading::CutShort
    } else {
        match s[i] {
            JsonTree::Number(n) => match n.float {
                Some(b) => Reading::Found(b),
                None => Reading::Nothing,
            },
            _ => Reading::Nothing,
        }
    }
}

/// The bits of the first `n` items, which are numbers; what is wrong with the first
/// that is none.
pub open spec fn floats_of(s: Seq<JsonTree>, n: int) -> Reading<Seq<u64>>
    decreases n,
{
    if n <= 0 {
        Reading::Found(Seq::empty())
    } else {
        match floats_of(s, n - 1) {
            Reading::Found(v) => match float_at(s, n - 1) {
                Reading::Found(b) => Reading::Found(v.push(b)),
                Reading::Nothing => Reading::Nothing,
                Reading::CutShort => Reading::CutShort,
            },
            Reading::Nothing => Reading::Nothing,
            Reading::CutShort => Reading::CutShort,
        }
    }
}

/// The ellipse that an entry is; an entry of another kind is passed over.
pub open spec fn ellipse_of(t: JsonTree) -> Reading<Option<PreviewEllipse>> {
    if member_signed(t, "type"@) != Some(16i64) {
        Reading::Found(None)
    } else {
        match (tree_list(t, "data"@), tree_list(t, "color"@)) {
            (Some(d), Some(c)) => match floats_of(d, 5) {
                Reading::CutShort => Reading::CutShort,
                Reading::Nothing => Reading::Nothing,
                Reading::Found(v) => if c.len() < 3 {
                    Reading::CutShort
                } else {
                    Reading::Found(
                        Some(
                            PreviewEllipse {
                                cx: v[0],
                                cy: v[1],
                                w: v[2],
                                h: v[3],
                                deg: v[4],
                                r: byte_at(c, 0),
                                g: byte_at(c, 1),
                                b: byte_at(c, 2),
                            },
                        ),
                    )
                },
            },
            _ => Reading::Nothing,
        }
    }
}

/// The ellipses among entries.
pub open spec fn ellipses_of(items: Seq<JsonTree>) -> Reading<Seq<PreviewEllipse>>
    decreases items.len(),
{
    if items.len() == 0 {
        Reading::Found(Seq::empty())
    } else {
        match ellipses_of(items.drop_last()) {
            Reading::CutShort => Reading::CutShort,
            Reading::Nothing => Reading::Nothing,
            Reading::Found(v) => match ellipse_of(items.last()) {
                Reading::CutShort => Reading::CutShort,
                Reading::Nothing => Reading::Nothing,
                Reading::Found(None) => Reading::Found(v),
                Reading::Found(Some(e)) => Reading::Found(v.push(e)),
            },
        }
    }
}

/// A size: a number without its fraction, at least zero.
pub open spec fn size_of_bits(b: u64) -> int {
    double_clamped(b, 0, u64::MAX as int)
}

/// The size of the image that the head of a geometry gives.
pub open spec fn preview_size(d: Seq<JsonTree>) -> Reading<(int, int)> {
    match float_at(d, 2) {
        Reading::CutShort => Reading::CutShort,
        Reading::Nothing => Reading::Nothing,
        Reading::Found(w) => match float_at(d, 3) {
            Reading::CutShort => Reading::CutShort,
            Reading::Nothing => Reading::Nothing,
            Reading::Found(h) => if size_of_bits(w) == 0 || size_of_bits(h) == 0 || size_of_bits(w)
                * size_of_bits(h) > MOST_PIXELS {
                Reading::Nothing
            } else {
                Reading::Found((size_of_bits(w), size_of_bits(h)))
            },
        },
    }
}

/// The preview of a geometry.
pub open spec fn preview_of(t: JsonTree) -> Reading<PreviewView> {
    match tree_list(t, "shapes"@) {
        None => Reading::Nothing,
        Some(items) => if items.len() == 0 {
            Reading::Nothing
        } else {
            match tree_list(items[0], "data"@) {
                None => Reading::Nothing,
                Some(d) => match preview_size(d) {
                    Reading::CutShort => Reading::CutShort,
                    Reading::Nothing => Reading::Nothing,
                    Reading::Found((w, h)) => match tree_list(items[0], "color"@) {
                        None => Reading::Nothing,
                        Some(c) => if c.len() < 3 {
                            Reading::CutShort
                        } else {
                            match ellipses_of(items.drop_first()) {
                                Reading::CutShort => Reading::CutShort,
                                Reading::Nothing => Reading::Nothing,
                                Reading::Found(ellipses) => Reading::Found(
                                    PreviewView {
                                        w: w as u64,
                                        h: h as u64,
                                        r: byte_at(c, 0),
                                        g: byte_at(c, 1),
                                        b: byte_at(c, 2),
                                        ellipses,
                                    },
                                ),
                            }
                        },
                    },
                },
            }
        },
    }
}

/// The lowest byte of the whole number that item `i` is.
fn read_byte(v: &Vec<Json>, i: usize) -> (r: u8)
    requires
        i < v@.len(),
    ensures
        r == byte_at(trees(v@), i as int),
{
    assert(trees(v@)[i as int] == v@[i as int].tree());
    match &v[i] {
        Json::Number(n) => match n.signed {
            Some(k) => if k >= 0 {
                (k % 256) as u8
            } else {
                let m: i64 = (-(k + 1)) % 256;
                (255 - m) as u8
            },
            None => 0,
        },
        _ => 0,
    }
}

/// The bits of the number that item `i` is.
fn read_float(v: &Vec<Json>, i: usize) -> (r: Reading<u64>)
    ensures
        r == float_at(trees(v@), i as int),
{
    if i >= v.len() {
        return Reading::CutShort;
    }
    assert(trees(v@)[i as int] == v@[i as int].tree());
    match &v[i] {
        Json::Number(n) => match n.float {
            Some(b) => Reading::Found(b),
            None => Reading::Nothing,
        },
        _ => Reading::Nothing,
    }
}

/// Whether a reading of a vector is one of a sequence.
pub open spec fn same_reading<T>(r: Reading<Vec<T>>, s: Reading<Seq<T>>) -> bool {
    match (r, s) {
        (Reading::CutShort, Reading::CutShort) => true,
        (Reading::Nothing, Reading::Nothing) => true,
        (Reading::Found(v), Reading::Found(w)) => v@ == w,
        _ => false,
    }
}

/// What is wrong with more items is wrong already with fewer.
proof fn lemma_floats_stop(s: Seq<JsonTree>, k: int, n: int)
    requires
        0 <= k <= n,
        !(floats_of(s, k) is Found),
    ensures
        floats_of(s, n) == floats_of(s, k),
    decreases n - k,
{
    if k < n {
        lemma_floats_stop(s, k, n - 1);
    }
}

/// The bits of the first `n` items.
fn read_floats(v: &Vec<Json>, n: usize) -> (r: Reading<Vec<u64>>)
    ensures
        same_reading(r, floats_of(trees(v@), n as int)),
{
    let ghost all = trees(v@);
    let mut out: Vec<u64> = Vec::new();
    for i in 0..n
        invariant
            all == trees(v@),
            floats_of(all, i as int) matches Reading::Found(s) && s == out@,
    {
        proof {
            if !(floats_of(all, i + 1) is Found) {
                lemma_floats_stop(all, i + 1, n as int);
            }
        }
        match read_float(v, i) {
            Reading::CutShort => return Reading::CutShort,
            Reading::Nothing => return Reading::Nothing,
            Reading::Found(b) => {
                out.push(b);
            },
        }
    }
    Reading::Found(out)
}

/// The ellipse that an entry is.
fn read_ellipse(entry: &Json) -> (r: Reading<Option<PreviewEllipse>>)
    ensures
        r == ellipse_of(entry.tree()),
{
    match entry.member_as_signed("type") {
        Some(16) => {},
        _ => return Reading::Found(None),
    }
    let (d, c) = match (entry.list("data"), entry.list("color")) {
        (Some(d), Some(c)) => (d, c),
        _ => return Reading::Nothing,
    };
    let v = match read_floats(d, 5) {
        Reading::CutShort => return Reading::CutShort,
        Reading::Nothing => return Reading::Nothing,
        Reading::Found(v) => v,
    };
    if c.len() < 3 {
        return Reading::CutShort;
    }
    proof {
        lemma_floats_len(trees(d@), 5);
    }
    Reading::Found(
        Some(
            PreviewEllipse {
                cx: v[0],
                cy: v[1],
                w: v[2],
                h: v[3],
                deg: v[4],
                r: read_byte(c, 0),
                g: read_byte(c, 1),
                b: read_byte(c, 2),
            },
        ),
    )
}

proof fn lemma_floats_len(s: Seq<JsonTree>, n: int)
    requires
        0 <= n,
    ensures
        floats_of(s, n) matches Reading::Found(v) ==> v.len() == n,
    decreases n,
{
    if n > 0 {
        lemma_floats_len(s, n - 1);
    }
}

/// What is wrong with more entries is wrong already with fewer.
proof fn lemma_ellipses_stop(items: Seq<JsonTree>, k: int)
    requires
        0 <= k <= items.len(),
        !(ellipses_of(items.take(k)) is Found),
    ensures
        ellipses_of(items) == ellipses_of(items.take(k)),
    decreases items.len() - k,
{
    if k < items.len() {
        assert(items.take(k + 1).drop_last() =~= items.take(k));
        lemma_ellipses_stop(items, k + 1);
    } else {
        assert(items.take(k) =~= items);
    }
}

/// The ellipses among the entries after the head.
fn read_ellipses(items: &Vec<Json>) -> (r: Reading<Vec<PreviewEllipse>>)
    requires
        items@.len() > 0,
    ensures
        same_reading(r, ellipses_of(trees(items@).drop_first())),
{
    let ghost rest = trees(items@).drop_first();
    let mut out: Vec<PreviewEllipse> = Vec::new();
    assert(rest.take(0) =~= Seq::<JsonTree>::empty());
    for i in 1..items.len()
        invariant
            1 <= i,
            items@.len() > 0,
            rest == trees(items@).drop_first(),
            ellipses_of(rest.take(i - 1)) matches Reading::Found(s) && s == out@,
    {
        proof {
            assert(rest.take(i as int).drop_last() =~= rest.take(i - 1));
            assert(rest.take(i as int).last() == items@[i as int].tree());
            if !(ellipses_of(rest.take(i as int)) is Found) {
                lemma_ellipses_stop(rest, i as int);
            }
        }
        match read_ellipse(&items[i]) {
            Reading::CutShort => return Reading::CutShort,
            Reading::Nothing => return Reading::Nothing,
            Reading::Found(None) => {},
            Reading::Found(Some(e)) => {
                out.push(e);
            },
        }
    }
    assert(rest.take(items@.len() - 1) =~= rest);
    Reading::Found(out)
}

/// The size of the image.
fn read_size(d: &Vec<Json>) -> (r: Reading<(u64, u64)>)
    ensures
        match (r, preview_size(trees(d@))) {
            (Reading::CutShort, Reading::CutShort) => true,
            (Reading::Nothing, Reading::Nothing) => true,
            (Reading::Found((w, h)), Reading::Found((w1, h1))) => w == w1 && h == h1,
            _ => false,
        },
{
    let w = match read_float(d, 2) {
        Reading::CutShort => return Reading::CutShort,
        Reading::Nothing => return Reading::Nothing,
        Reading::Found(b) => double_to_u64(b),
    };
    let h = match read_float(d, 3) {
        Reading::CutShort => return Reading::CutShort,
        Reading::Nothing => return Reading::Nothing,
        Reading::Found(b) => double_to_u64(b),
    };
    proof {
        assert(0 <= w * h <= 0xFFFF_FFFF_FFFF_FFFF * 0xFFFF_FFFF_FFFF_FFFF) by (nonlinear_arith)
            requires
                0 <= w <= 0xFFFF_FFFF_FFFF_FFFF,
                0 <= h <= 0xFFFF_FFFF_FFFF_FFFF,
        ;
    }
    if w == 0 || h == 0 || w as u128 * h as u128 > MOST_PIXELS as u128 {
        Reading::Nothing
    } else {
        Reading::Found((w, h))
    }
}

/// Whether a reading of a preview is one of its view.
pub open spec fn same_preview(r: Reading<Preview>, s: Reading<PreviewView>) -> bool {
    match (r, s) {
        (Reading::CutShort, Reading::CutShort) => true,
        (Reading::Nothing, Reading::Nothing) => true,
        (Reading::Found(p), Reading::Found(v)) => p@ == v,
        _ => false,
    }
}

/// The preview of a document.
pub fn decode_preview(doc: &Json) -> (r: Reading<Preview>)
    ensures
        same_preview(r, preview_of(doc.tree())),
{
    let items = match doc.list("shapes") {
        Some(items) => items,
        None => return Reading::Nothing,
    };
    if items.len() == 0 {
        return Reading::Nothing;
    }
    let head = &items[0];
    assert(trees(items@)[0] == head.tree());
    let d = match head.list("data") {
        Some(d) => d,
        None => return Reading::Nothing,
    };
    let (w, h) = match read_size(d) {
        Reading::CutShort => return Reading::CutShort,
        Reading::Nothing => return Reading::Nothing,
        Reading::Found(size) => size,
    };
    let c = match head.list("color") {
        Some(c) => c,
        None => return Reading::Nothing,
    };
    if c.len() < 3 {
        return Reading::CutShort;
    }
    match read_ellipses(items) {
        Reading::CutShort => Reading::CutShort,
        Reading::Nothing => Reading::Nothing,
        Reading::Found(ellipses) => Reading::Found(
            Preview {
                w,
                h,
                r: read_byte(c, 0),
                g: read_byte(c, 1),
                b: read_byte(c, 2),
                ellipses,
            },
        ),
    }
}

/// The preview of the geometry in the text of a document.
pub fn read_preview(text: &str) -> (r: Reading<Preview>)
    ensures
        same_preview(
            r,
            match json_document(text@) {
                Some(t) => preview_of(t),
                None => Reading::Nothing,
            },
        ),
{
    match parse_json(text) {
        Some(doc) => decode_preview(&doc),
        None => Reading::Nothing,
    }
}

} // verus!
