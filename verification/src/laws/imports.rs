//! What an import does to the layers of a template.

use vstd::prelude::*;

use crate::chain::livery_search;
use crate::device::{plus, Color, Coordinate, Field, FieldWrite, World};
use crate::geometry::{GeometryView, Shape};
use crate::importer::{
    imported, law_import_writes_every_slot, live_count, progress, template_in_effect,
    template_writes, with_count, with_group, with_live_count, with_livery, with_table, written,
    ImportError, ImportJob,
};
use crate::laws::layers::{lemma_word, word};
use crate::laws::tables::least;
use crate::notices::Notice;
use crate::profiles::{shared_layout, GameProfile};
use crate::template::{placed, pointers, slot_shape, slot_writes};
use crate::winmem::little_endian;

verus! {

/// The number that eight bytes from position `i` on store, the lowest first.
pub open spec fn long_word(b: Seq<u8>, i: int) -> int {
    word(b, i) + 0x1_0000_0000 * word(b, i + 4)
}

/// The address that is `offset` behind `at`.
pub open spec fn behind(at: int, offset: int) -> u64 {
    ((at + offset) % 0x1_0000_0000_0000_0000) as u64
}

/// Whether a shape is an ellipse or a rectangle.
pub open spec fn drawable(s: Shape) -> bool {
    s.type_id == 1 || s.type_id == 16
}

/// The six writes that make the layer at `at` show the shape `s`: its own place, its own
/// size, its own angle, its own colour, its kind and whether it is a mask. The unit of the
/// size is 63 for an ellipse and 127 for a rectangle, the kinds are 102 and 101.
pub open spec fn layer_of(at: int, s: Shape) -> Seq<FieldWrite> {
    let ellipse = s.type_id == 16;
    seq![
        FieldWrite { address: behind(at, 0x18), field: Field::Position { x: s.x, y: s.y } },
        FieldWrite {
            address: behind(at, 0x28),
            field: Field::Scale {
                w: s.w,
                h: s.h,
                divisor: if ellipse {
                    63
                } else {
                    127
                },
            },
        },
        FieldWrite { address: behind(at, 0x50), field: Field::Rotation(s.rot_deg) },
        FieldWrite { address: behind(at, 0x74), field: Field::Color(s.color) },
        FieldWrite {
            address: behind(at, 0x7A),
            field: Field::ShapeId(
                if ellipse {
                    102
                } else {
                    101
                },
            ),
        },
        FieldWrite {
            address: behind(at, 0x78),
            field: Field::Mask(
                if s.is_mask {
                    1
                } else {
                    0
                },
            ),
        },
    ]
}

/// How many shapes of an image go into a template: all of them, up to 2996, as long as
/// four layers stay free.
pub open spec fn shapes_kept(g: GeometryView, count: u32) -> int {
    least(g.shapes.len() as int, least(2996, count - 4))
}

/// The rectangle that hides a layer: without size and colour, a mask, far off.
pub open spec fn nothing_to_see() -> Shape {
    Shape {
        type_id: 1,
        x: Coordinate::Whole((-100000) as i64),
        y: Coordinate::Whole((-100000) as i64),
        w: Coordinate::Whole(0),
        h: Coordinate::Whole(0),
        rot_deg: Coordinate::Whole(0),
        color: Color { r: 0, g: 0, b: 0, a: 0 },
        is_mask: true,
    }
}

/// The layers are written in six steps each, one layer after the other.
proof fn lemma_six_writes(
    p: GameProfile,
    addresses: Seq<u64>,
    shapes: Seq<Shape>,
    n: int,
)
    requires
        shared_layout(p),
        0 <= n,
        forall|i: int| 0 <= i < shapes.len() ==> drawable(#[trigger] shapes[i]),
    ensures
        template_writes(p, addresses, shapes, n).len() == 6 * least(n, addresses.len() as int),
        forall|i: int|
            0 <= i < n && i < addresses.len() ==> template_writes(p, addresses, shapes, n).subrange(
                6 * i,
                6 * i + 6,
            ) == #[trigger] layer_of(addresses[i] as int, slot_shape(shapes, i)),
    decreases n,
{
    if n > 0 {
        lemma_six_writes(p, addresses, shapes, n - 1);
        let before = template_writes(p, addresses, shapes, n - 1);
        let now = slot_writes(p, addresses, shapes, n - 1);
        let all = template_writes(p, addresses, shapes, n);
        if n - 1 < addresses.len() {
            let at = addresses[n - 1];
            let s = slot_shape(shapes, n - 1);
            assert(drawable(s)) by {
                if n - 1 < shapes.len() {
                    assert(drawable(shapes[n - 1]));
                }
            }
            assert(now =~= layer_of(at as int, s));
        } else {
            assert(now =~= Seq::<FieldWrite>::empty());
        }
        assert forall|i: int| 0 <= i < n && i < addresses.len() implies all.subrange(
            6 * i,
            6 * i + 6,
        ) == #[trigger] layer_of(addresses[i] as int, slot_shape(shapes, i)) by {
            if i < n - 1 {
                assert(before.subrange(6 * i, 6 * i + 6) == layer_of(
                    addresses[i] as int,
                    slot_shape(shapes, i),
                ));
                assert(all.subrange(6 * i, 6 * i + 6) =~= before.subrange(6 * i, 6 * i + 6));
            } else {
                assert(all.subrange(6 * i, 6 * i + 6) =~= now);
            }
        }
    }
}

/// The pointers that the bytes of a table hold.
proof fn lemma_pointers(raw: Seq<u8>, i: int)
    requires
        0 <= i < raw.len() as int / 8,
    ensures
        pointers(raw)[i] == long_word(raw, 8 * i),
{
    let b = raw.subrange(8 * i, 8 * i + 8);
    lemma_word(raw, 8 * i);
    lemma_word(raw, 8 * i + 4);
    reveal_with_fuel(little_endian, 9);
    let b1 = b.drop_first();
    let b2 = b1.drop_first();
    let b3 = b2.drop_first();
    let b4 = b3.drop_first();
    assert(b4 =~= raw.subrange(8 * i + 4, 8 * i + 8));
    assert(b[0] == raw[8 * i] && b1[0] == raw[8 * i + 1] && b2[0] == raw[8 * i + 2] && b3[0]
        == raw[8 * i + 3]);
    assert(little_endian(b) == b[0] + 256 * (b1[0] + 256 * (b2[0] + 256 * (b3[0] + 256
        * little_endian(b4)))));
}

/// An import that succeeds has filled the template in effect. Its table gives the address
/// of the layer of each slot, and the layers are written in the order of the slots, six
/// writes to a layer and no other write. The first slots show the shapes of the image,
/// each with its own place, size, angle, colour and kind; with edge masks the next four
/// show these; every other slot is hidden.
pub proof fn law_import_fills_the_template(w: World, job: ImportJob, count: u32, table: u64)
    requires
        shared_layout(job.profile),
        forall|i: int| 0 <= i < job.geometry.shapes.len() ==> drawable(
            #[trigger] job.geometry.shapes[i],
        ),
        template_in_effect(w, job) == Some((count, table)),
        imported(w, job).result is Ok,
    ensures
        ({
            let raw = (w.read)(table, (8 * count) as u64);
            let writes = imported(w, job).writes;
            let slots = least(count as int, raw.len() as int / 8);
            let kept = shapes_kept(job.geometry, count);
            &&& writes.len() == 6 * slots
            &&& forall|i: int|
                0 <= i < slots && i < kept ==> writes.subrange(6 * i, 6 * i + 6) == layer_of(
                    long_word(raw, 8 * i),
                    #[trigger] job.geometry.shapes[i],
                )
            &&& forall|i: int|
                #![trigger long_word(raw, 8 * i)]
                0 <= i < slots && kept <= i < kept + 4 && job.edge_mask ==> writes.subrange(
                    6 * i,
                    6 * i + 6,
                ) == layer_of(long_word(raw, 8 * i), placed(job.geometry, count, true)[i])
            &&& forall|i: int|
                #![trigger long_word(raw, 8 * i)]
                0 <= i < slots && i >= kept + (if job.edge_mask {
                    4int
                } else {
                    0
                }) ==> writes.subrange(6 * i, 6 * i + 6) == layer_of(
                    long_word(raw, 8 * i),
                    nothing_to_see(),
                )
        }),
{
    law_import_writes_every_slot(w, job);
    let raw = (w.read)(table, (8 * count) as u64);
    let addresses = pointers(raw);
    let shapes = placed(job.geometry, count, job.edge_mask);
    let kept = shapes_kept(job.geometry, count);
    let writes = imported(w, job).writes;
    assert(writes == template_writes(job.profile, addresses, shapes, count as int));
    assert forall|i: int| 0 <= i < shapes.len() implies drawable(#[trigger] shapes[i]) by {
        if i < kept {
            assert(shapes[i] == job.geometry.shapes[i]);
        }
    }
    lemma_six_writes(job.profile, addresses, shapes, count as int);
    let slots = least(count as int, raw.len() as int / 8);
    assert forall|i: int| 0 <= i < slots && i < kept implies writes.subrange(6 * i, 6 * i + 6)
        == layer_of(long_word(raw, 8 * i), #[trigger] job.geometry.shapes[i]) by {
        lemma_pointers(raw, i);
        assert(slot_shape(shapes, i) == job.geometry.shapes[i]);
        assert(writes.subrange(6 * i, 6 * i + 6) == layer_of(
            addresses[i] as int,
            slot_shape(shapes, i),
        ));
    }
    assert forall|i: int|
        #![trigger long_word(raw, 8 * i)]
        0 <= i < slots && kept <= i < kept + 4 && job.edge_mask implies writes.subrange(
        6 * i,
        6 * i + 6,
    ) == layer_of(long_word(raw, 8 * i), placed(job.geometry, count, true)[i]) by {
        lemma_pointers(raw, i);
        assert(slot_shape(shapes, i) == shapes[i]);
        assert(writes.subrange(6 * i, 6 * i + 6) == layer_of(
            addresses[i] as int,
            slot_shape(shapes, i),
        ));
    }
    assert forall|i: int|
        #![trigger long_word(raw, 8 * i)]
        0 <= i < slots && i >= kept + (if job.edge_mask {
            4int
        } else {
            0
        }) implies writes.subrange(6 * i, 6 * i + 6) == layer_of(
        long_word(raw, 8 * i),
        nothing_to_see(),
    ) by {
        lemma_pointers(raw, i);
        assert(slot_shape(shapes, i) == nothing_to_see());
        assert(writes.subrange(6 * i, 6 * i + 6) == layer_of(
            addresses[i] as int,
            slot_shape(shapes, i),
        ));
    }
}

/// An import reports the layer that it comes to for the first, every hundredth and the
/// last one, and for no other.
pub open spec fn due(layer: int, total: int) -> bool {
    layer == 1 || layer % 100 == 0 || layer == total
}

/// The report of a layer.
pub open spec fn writing(layer: int, total: int) -> Notice {
    Notice::WritingLayer { layer: layer as u32, total: total as u32 }
}

/// Whether the layers that are reported from layer `from` on are those that are due.
pub open spec fn reports_due(notices: Seq<Notice>, from: int, total: int) -> bool {
    forall|layer: int|
        from <= layer <= total ==> (#[trigger] notices.contains(writing(layer, total)) <==> due(
            layer,
            total,
        ))
}

proof fn lemma_push_contains(s: Seq<Notice>, x: Notice, y: Notice)
    ensures
        s.push(x).contains(y) <==> s.contains(y) || x == y,
{
    let t = s.push(x);
    if s.contains(y) {
        assert(t[s.index_of(y)] == y);
    }
    if x == y {
        assert(t[s.len() as int] == y);
    }
    if t.contains(y) && x != y {
        assert(s[t.index_of(y)] == y);
    }
}

/// What is reported while the layers are written.
proof fn lemma_written_reports_due(
    w: World,
    p: GameProfile,
    addresses: Seq<u64>,
    shapes: Seq<Shape>,
    background: Color,
    total: int,
    i: int,
    k: int,
    notices: Seq<Notice>,
    writes: Seq<FieldWrite>,
)
    requires
        0 <= i <= total,
        total <= u32::MAX,
        forall|layer: int|
            1 <= layer <= total && layer <= i + 1 ==> (#[trigger] notices.contains(
                writing(layer, total),
            ) <==> due(layer, total)),
        forall|layer: int|
            i + 1 < layer <= total ==> !#[trigger] notices.contains(writing(layer, total)),
    ensures
        ({
            let r = written(w, p, addresses, shapes, background, total, i, k, notices, writes);
            r.result is Ok ==> {
                &&& reports_due(r.notices, 1, total)
                &&& r.notices.len() >= 2
                &&& r.notices[r.notices.len() - 2] == Notice::Done
                &&& r.notices.last() == (Notice::BackgroundColor {
                    r: background.r,
                    g: background.g,
                    b: background.b,
                })
            }
        }),
    decreases total - i, slot_writes(p, addresses, shapes, i).len() - k,
{
    reveal_with_fuel(written, 1);
    let now = slot_writes(p, addresses, shapes, i);
    if i >= total {
        let end = notices.push(Notice::Done).push(
            Notice::BackgroundColor { r: background.r, g: background.g, b: background.b },
        );
        assert forall|layer: int| 1 <= layer <= total implies (#[trigger] end.contains(
            writing(layer, total),
        ) <==> due(layer, total)) by {
            lemma_push_contains(notices, Notice::Done, writing(layer, total));
            lemma_push_contains(
                notices.push(Notice::Done),
                Notice::BackgroundColor { r: background.r, g: background.g, b: background.b },
                writing(layer, total),
            );
        }
    } else if k >= now.len() {
        let more = progress(notices, i + 1, total);
        assert forall|layer: int| 1 <= layer <= total && layer <= i + 2 implies (
        #[trigger] more.contains(writing(layer, total)) <==> due(layer, total)) by {
            lemma_push_contains(notices, writing(i + 2, total), writing(layer, total));
        }
        assert forall|layer: int| i + 2 < layer <= total implies !#[trigger] more.contains(
            writing(layer, total),
        ) by {
            lemma_push_contains(notices, writing(i + 2, total), writing(layer, total));
        }
        lemma_written_reports_due(
            w,
            p,
            addresses,
            shapes,
            background,
            total,
            i + 1,
            0,
            more,
            writes,
        );
    } else if (w.accepts)(now[k]) {
        lemma_written_reports_due(
            w,
            p,
            addresses,
            shapes,
            background,
            total,
            i,
            k + 1,
            notices,
            writes.push(now[k]),
        );
    }
}

/// Once the table of layers is known, a success reports the layers that are due, and at
/// the end the colour of the background.
pub proof fn law_progress_is_reported(
    w: World,
    job: ImportJob,
    count: u32,
    table: u64,
    notices: Seq<Notice>,
)
    requires
        with_table(w, job, count, table, notices).result is Ok,
        forall|layer: u32, total: u32|
            !#[trigger] notices.contains(Notice::WritingLayer { layer, total }),
    ensures
        reports_due(with_table(w, job, count, table, notices).notices, 1, count as int),
        with_table(w, job, count, table, notices).notices.last() == (Notice::BackgroundColor {
            r: job.geometry.background.r,
            g: job.geometry.background.g,
            b: job.geometry.background.b,
        }),
{
    reveal(with_table);
    let total = count as int;
    let at = notices.push(Notice::TableAt { address: table });
    let first = progress(at, 0, total);
    assert forall|layer: int| 1 <= layer <= total && layer <= 1 implies (#[trigger] first.contains(
        writing(layer, total),
    ) <==> due(layer, total)) by {
        lemma_push_contains(at, writing(1, total), writing(layer, total));
    }
    assert forall|layer: int| 1 < layer <= total implies !#[trigger] first.contains(
        writing(layer, total),
    ) by {
        lemma_push_contains(at, writing(1, total), writing(layer, total));
        lemma_push_contains(
            notices,
            Notice::TableAt { address: table },
            writing(layer, total),
        );
        assert(!notices.contains(
            Notice::WritingLayer { layer: layer as u32, total: total as u32 },
        ));
    }
    lemma_written_reports_due(
        w,
        job.profile,
        pointers((w.read)(table, (count * 8) as u64)),
        placed(job.geometry, count, job.edge_mask),
        job.geometry.background,
        total,
        0,
        0,
        first,
        Seq::empty(),
    );
}

/// How the writes of an import end: each that was made was accepted, and after a failure
/// the next one was not.
proof fn lemma_written_accepted(
    w: World,
    p: GameProfile,
    addresses: Seq<u64>,
    shapes: Seq<Shape>,
    background: Color,
    total: int,
    i: int,
    k: int,
    notices: Seq<Notice>,
    writes: Seq<FieldWrite>,
)
    requires
        0 <= i <= total,
        0 <= k,
        forall|j: int| 0 <= j < writes.len() ==> (w.accepts)(#[trigger] writes[j]),
    ensures
        ({
            let r = written(w, p, addresses, shapes, background, total, i, k, notices, writes);
            &&& forall|j: int| 0 <= j < r.writes.len() ==> (w.accepts)(#[trigger] r.writes[j])
            &&& r.result is Err ==> exists|f: FieldWrite| !#[trigger] (w.accepts)(f)
            &&& r.result is Err ==> exists|slot: int|
                0 <= slot < total && slot < addresses.len() && #[trigger] blames(r.notices, slot)
        }),
    decreases total - i, slot_writes(p, addresses, shapes, i).len() - k,
{
    reveal_with_fuel(written, 1);
    let now = slot_writes(p, addresses, shapes, i);
    if i >= total {
    } else if k >= now.len() {
        lemma_written_accepted(
            w,
            p,
            addresses,
            shapes,
            background,
            total,
            i + 1,
            0,
            progress(notices, i + 1, total),
            writes,
        );
    } else if (w.accepts)(now[k]) {
        lemma_written_accepted(
            w,
            p,
            addresses,
            shapes,
            background,
            total,
            i,
            k + 1,
            notices,
            writes.push(now[k]),
        );
    } else {
        let r = written(w, p, addresses, shapes, background, total, i, k, notices, writes);
        assert(r.notices[notices.len() as int] == Notice::WriteFailed { slot: (i + 1) as u32 });
        assert(blames(r.notices, i));
    }
}

/// Whether a report blames a slot for a failure, counted from one: a wrong table for one
/// of the first sixteen, a grouped vinyl for a later one.
pub open spec fn blames(notices: Seq<Notice>, slot: int) -> bool {
    let n = notices.len();
    if slot < 16 {
        n >= 4 && notices[n - 4] == (Notice::WriteFailed { slot: (slot + 1) as u32 }) && notices[n
            - 3] == Notice::LikelyWrongTable && notices[n - 2] == Notice::UseLargerTemplate
            && notices[n - 1] == Notice::LocateAgain
    } else {
        n >= 3 && notices[n - 3] == (Notice::WriteFailed { slot: (slot + 1) as u32 }) && notices[n
            - 2] == Notice::PossiblyGrouped && notices[n - 1] == Notice::CheckEditor
    }
}

/// Only writes that the game accepted count as made. Where it accepts every write, the
/// import into a template of at least a hundred layers succeeds; an import that fails on
/// the way says at which slot.
pub proof fn law_import_succeeds_unless_refused(
    w: World,
    job: ImportJob,
    count: u32,
    table: u64,
    notices: Seq<Notice>,
)
    requires
        count >= 100,
        table != 0,
    ensures
        ({
            let r = with_table(w, job, count, table, notices);
            &&& forall|j: int| 0 <= j < r.writes.len() ==> (w.accepts)(#[trigger] r.writes[j])
            &&& (forall|f: FieldWrite| #[trigger] (w.accepts)(f)) ==> r.result is Ok
            &&& r.result matches Err(e) ==> e == ImportError::WriteFailed && exists|slot: int|
                0 <= slot < count && #[trigger] blames(r.notices, slot)
        }),
{
    reveal(with_table);
    let addresses = pointers((w.read)(table, (count * 8) as u64));
    let shapes = placed(job.geometry, count, job.edge_mask);
    let start = progress(notices.push(Notice::TableAt { address: table }), 0, count as int);
    lemma_written_accepted(
        w,
        job.profile,
        addresses,
        shapes,
        job.geometry.background,
        count as int,
        0,
        0,
        start,
        Seq::empty(),
    );
    assert(slot_writes(job.profile, addresses, shapes, 0).take(0) =~= Seq::<FieldWrite>::empty());
    crate::importer::lemma_written(
        w,
        job.profile,
        addresses,
        shapes,
        job.geometry.background,
        count as int,
        0,
        0,
        start,
        Seq::empty(),
    );
}

/// Which template an import works on, where the address of the number of layers is known:
/// the number is read there, as two bytes or as four, and rejected where the user entered
/// another; the table is the one that is known, or else the pointer 0x1E behind the
/// number. Fewer than a hundred layers and a table at zero are refused.
pub proof fn law_known_address_gives_the_template(w: World, job: ImportJob, address: u64)
    requires
        job.count_address == Some(address),
        address < 0x1_0000_0000_0000,
    ensures
        ({
            let count = if job.short_count {
                w.u16_at(address) as u32
            } else {
                w.u32_at(address)
            };
            let table = match job.table_address {
                Some(t) => t,
                None => w.u64_at((address + 0x1E) as u64),
            };
            let r = imported(w, job).result;
            if job.expected_count matches Some(n) && n != count {
                r == Err::<(), ImportError>(ImportError::CountMismatch)
            } else if count < 100 {
                r == Err::<(), ImportError>(ImportError::TooFewLayers)
            } else if table == 0 {
                r == Err::<(), ImportError>(ImportError::NoTable)
            } else {
                &&& template_in_effect(w, job) == Some((count, table))
                &&& r is Ok || r == Err::<(), ImportError>(ImportError::WriteFailed)
                &&& (forall|f: FieldWrite| #[trigger] (w.accepts)(f)) ==> r is Ok
            }
        }),
{
    reveal(with_live_count);
    reveal(with_count);
    reveal(with_table);
    let count = live_count(w, job, address);
    assert(plus(address, 0x1E) == (address + 0x1E) as u64);
    let table = match job.table_address {
        Some(t) => t,
        None => w.u64_at((address + 0x1E) as u64),
    };
    if count >= 100 && table != 0 {
        law_import_succeeds_unless_refused(
            w,
            job,
            count,
            table,
            reported_before_table(w, job, address, count),
        );
    }
}

/// What is reported before the table of layers is used.
spec fn reported_before_table(w: World, job: ImportJob, address: u64, count: u32) -> Seq<Notice> {
    let first = crate::importer::opening(job).push(
        if job.expected_count is Some {
            Notice::TemplateCount { count, address }
        } else {
            crate::importer::count_notice(job, address, count)
        },
    );
    match job.table_address {
        Some(t) => first,
        None => first.push(
            Notice::ManualTable {
                field: plus(address, 0x1E),
                table: w.u64_at(plus(address, 0x1E)),
            },
        ),
    }
}

/// Which template an import works on, where no address is known: that of the group that
/// the livery points to, 0x20 behind it, with the number of layers 0x5A and the table 0x78
/// behind the group.
pub proof fn law_livery_gives_the_template(w: World, job: ImportJob)
    requires
        shared_layout(job.profile),
        job.count_address is None,
    ensures
        match livery_search(w, job.profile).livery {
            None => imported(w, job).result == Err::<(), ImportError>(ImportError::NoLivery),
            Some(livery) => {
                let group = w.u64_at(behind(livery as int, 0x20));
                let count = w.u32_at(behind(group as int, 0x5A));
                let table = w.u64_at(behind(group as int, 0x78));
                if group == 0 {
                    imported(w, job).result == Err::<(), ImportError>(ImportError::NoGroup)
                } else if count < 100 {
                    imported(w, job).result == Err::<(), ImportError>(ImportError::TooFewLayers)
                } else if table == 0 {
                    imported(w, job).result == Err::<(), ImportError>(ImportError::NoTable)
                } else {
                    template_in_effect(w, job) == Some((count, table))
                }
            },
        },
{
    reveal(with_livery);
    reveal(with_group);
    reveal(with_table);
}

/// The masks of an image: black rectangles over the quarter beside its left and right
/// edge, one and a half times as high as it, and over the quarter above and below it,
/// twice as wide. Halves and quarters are rounded down.
pub proof fn law_masks_frame_the_image(g: GeometryView, count: u32, w: int, h: int)
    requires
        count >= 4,
        0 <= w <= 0x4_0000_0000,
        0 <= h <= 0x4_0000_0000,
        g.image_w == w,
        g.image_h == h,
    ensures
        ({
            let with = placed(g, count, true);
            let without = placed(g, count, false);
            let n = shapes_kept(g, count);
            let black = Color { r: 0, g: 0, b: 0, a: 255 };
            let frame = |x: int, y: int, wide: int, high: int| Shape {
                type_id: 1,
                x: Coordinate::Whole(x as i64),
                y: Coordinate::Whole(y as i64),
                w: Coordinate::Whole(wide as i64),
                h: Coordinate::Whole(high as i64),
                rot_deg: Coordinate::Whole(0),
                color: black,
                is_mask: true,
            };
            &&& without == g.shapes.take(n)
            &&& with.len() == n + 4
            &&& with.take(n) == without
            &&& with[n] == frame(-(w / 4), h / 2, w / 2, h + h / 2)
            &&& with[n + 1] == frame(w + w / 4, h / 2, w / 2, h + h / 2)
            &&& with[n + 2] == frame(w / 2, -(h / 4), 2 * w, h / 2)
            &&& with[n + 3] == frame(w / 2, h + h / 4, 2 * w, h / 2)
        }),
{
    let n = shapes_kept(g, count);
    assert(placed(g, count, false) =~= g.shapes.take(n));
    assert(placed(g, count, true).take(n) =~= g.shapes.take(n));
}

proof fn lemma_failure(
    w: World,
    p: GameProfile,
    addresses: Seq<u64>,
    shapes: Seq<Shape>,
    background: Color,
    total: int,
    i: int,
    k: int,
    notices: Seq<Notice>,
    writes: Seq<FieldWrite>,
)
    requires
        shared_layout(p),
        forall|j: int| 0 <= j < shapes.len() ==> drawable(#[trigger] shapes[j]),
        0 <= i <= total,
        0 <= k <= slot_writes(p, addresses, shapes, i).len(),
        writes == template_writes(p, addresses, shapes, i) + slot_writes(
            p,
            addresses,
            shapes,
            i,
        ).take(k),
    ensures
        ({
            let r = written(w, p, addresses, shapes, background, total, i, k, notices, writes);
            let slot = r.writes.len() as int / 6;
            let next = r.writes.len() as int % 6;
            r.result is Err ==> {
                &&& 0 <= slot < total
                &&& slot < addresses.len()
                &&& blames(r.notices, slot)
                &&& !(w.accepts)(layer_of(addresses[slot] as int, slot_shape(shapes, slot))[next])
                &&& r.writes == template_writes(p, addresses, shapes, slot) + layer_of(
                    addresses[slot] as int,
                    slot_shape(shapes, slot),
                ).take(next)
            }
        }),
    decreases total - i, slot_writes(p, addresses, shapes, i).len() - k,
{
    reveal_with_fuel(written, 1);
    let now = slot_writes(p, addresses, shapes, i);
    lemma_six_writes(p, addresses, shapes, i);
    if i >= total {
    } else if k >= now.len() {
        assert(now.take(k) =~= now);
        let more = template_writes(p, addresses, shapes, i + 1);
        assert(more == template_writes(p, addresses, shapes, i) + now);
        assert(more + slot_writes(p, addresses, shapes, i + 1).take(0) =~= more);
        lemma_failure(
            w,
            p,
            addresses,
            shapes,
            background,
            total,
            i + 1,
            0,
            progress(notices, i + 1, total),
            writes,
        );
    } else if (w.accepts)(now[k]) {
        assert(writes.push(now[k]) =~= template_writes(p, addresses, shapes, i) + now.take(k + 1));
        lemma_failure(
            w,
            p,
            addresses,
            shapes,
            background,
            total,
            i,
            k + 1,
            notices,
            writes.push(now[k]),
        );
    } else {
        let at = addresses[i] as int;
        let s = slot_shape(shapes, i);
        assert(drawable(s)) by {
            if i < shapes.len() {
                assert(drawable(shapes[i]));
            }
        }
        assert(now =~= layer_of(at, s));
        let r = written(w, p, addresses, shapes, background, total, i, k, notices, writes);
        assert(r.writes.len() == 6 * i + k);
        assert(r.notices[notices.len() as int] == Notice::WriteFailed { slot: (i + 1) as u32 });
        assert(blames(r.notices, i));
    }
}

/// An import that a write stops has written the slots before it as the template wants them,
/// six writes each, and of its own slot what comes before that write; it reports that
/// slot.
pub proof fn law_failed_import_stops_at_its_slot(
    w: World,
    job: ImportJob,
    count: u32,
    table: u64,
    notices: Seq<Notice>,
)
    requires
        shared_layout(job.profile),
        forall|i: int| 0 <= i < job.geometry.shapes.len() ==> drawable(
            #[trigger] job.geometry.shapes[i],
        ),
        count >= 100,
        table != 0,
    ensures
        ({
            let r = with_table(w, job, count, table, notices);
            let raw = (w.read)(table, (8 * count) as u64);
            let shapes = placed(job.geometry, count, job.edge_mask);
            let slot = r.writes.len() as int / 6;
            let next = r.writes.len() as int % 6;
            r.result is Err ==> {
                &&& 0 <= slot < count
                &&& 8 * slot + 8 <= raw.len()
                &&& blames(r.notices, slot)
                &&& !(w.accepts)(layer_of(long_word(raw, 8 * slot), slot_shape(shapes, slot))[next])
                &&& forall|i: int|
                    #![trigger long_word(raw, 8 * i)]
                    0 <= i < slot ==> r.writes.subrange(6 * i, 6 * i + 6) == layer_of(
                        long_word(raw, 8 * i),
                        slot_shape(shapes, i),
                    )
            }
        }),
{
    reveal(with_table);
    let raw = (w.read)(table, (8 * count) as u64);
    let addresses = pointers(raw);
    let shapes = placed(job.geometry, count, job.edge_mask);
    let start = progress(notices.push(Notice::TableAt { address: table }), 0, count as int);
    let kept = shapes_kept(job.geometry, count);
    assert forall|i: int| 0 <= i < shapes.len() implies drawable(#[trigger] shapes[i]) by {
        if i < kept {
            assert(shapes[i] == job.geometry.shapes[i]);
        }
    }
    let p = job.profile;
    let none = Seq::<FieldWrite>::empty();
    assert(none =~= template_writes(p, addresses, shapes, 0) + slot_writes(
        p,
        addresses,
        shapes,
        0,
    ).take(0));
    lemma_failure(
        w,
        p,
        addresses,
        shapes,
        job.geometry.background,
        count as int,
        0,
        0,
        start,
        none,
    );
    let r = with_table(w, job, count, table, notices);
    if r.result is Err {
        let slot = r.writes.len() as int / 6;
        lemma_pointers(raw, slot);
        lemma_six_writes(p, addresses, shapes, slot);
        let before = template_writes(p, addresses, shapes, slot);
        assert forall|i: int|
            #![trigger long_word(raw, 8 * i)]
            0 <= i < slot implies r.writes.subrange(6 * i, 6 * i + 6) == layer_of(
            long_word(raw, 8 * i),
            slot_shape(shapes, i),
        ) by {
            lemma_pointers(raw, i);
            assert(before.subrange(6 * i, 6 * i + 6) == layer_of(
                addresses[i] as int,
                slot_shape(shapes, i),
            ));
            assert(r.writes.subrange(6 * i, 6 * i + 6) =~= before.subrange(6 * i, 6 * i + 6));
        }
    }
}

} // verus!
