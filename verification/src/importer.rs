//! The import of a geometry into the vinyl template that is open in a game.

use vstd::prelude::*;
use vstd::string::*;

use crate::chain::{livery_search, ChainOutcome, LiveryChain};
use crate::device::{
    answered, asked, fits, offset_by, one_read, plus, read_from, read_one, Color, FieldWrite, Reply,
    Request, RequestView, Span, World,
};
use crate::diagnosis::{diagnosis, Diagnosis};
use crate::geometry::{
    geometry_error_text, geometry_of, geometry_readable, read_geometry, Geometry, GeometryError,
    GeometryView, Shape,
};
use crate::json::json_document;
use crate::notices::{begins, group_begins, lemma_begins_chain, Notice};
use crate::procs::{games, optional_text, resolve_pid, resolved, GameProc, GameProcView};
use crate::profiles::{
    get_profile, known_game, profile_of, GameProfile, FH6_DISCOVERED_TABLE_POINTER_DELTA,
};
use crate::template::{
    hidden, place, placed, plan_slot, pointers, read_pointers, shape_writes, slot_writes,
};
use crate::text::same_text;
use crate::winmem::{read_u16, read_u32, read_u64};

verus! {

/// What an import or a diagnosis is asked to do.
#[derive(Clone, Debug)]
pub struct ImportArgs {
    /// The key of the game, where one is named.
    pub game: Option<String>,
    /// The process, where one is named.
    pub pid: Option<u32>,
    /// Where the game keeps the number of layers, where that is known.
    pub layer_count_address: Option<u64>,
    /// Where the game keeps the table of layers, where that is known.
    pub layer_table_address: Option<u64>,
    /// The exact number of layers that the user entered; an address that holds another
    /// number is rejected.
    pub expected_count: Option<u32>,
    /// Whether four rectangles clip the image at its edges.
    pub edge_mask: bool,
}

/// Why an import ended early.
#[derive(Clone, Copy, Debug, PartialEq, Eq, Structural)]
pub enum ImportError {
    /// The livery was not found.
    NoLivery,
    /// No vinyl group is being edited.
    NoGroup,
    /// The address of the number of layers holds another number than was entered.
    CountMismatch,
    /// The template has fewer than a hundred layers.
    TooFewLayers,
    /// There is no table of layers.
    NoTable,
    /// A write failed.
    WriteFailed,
}

/// The text of an error.
pub open spec fn import_error_text(e: ImportError) -> Seq<char> {
    match e {
        ImportError::NoLivery => "Could not resolve CLivery via signature chain"@,
        ImportError::NoGroup =>
            "cLiveryGroup is invalid. You are probably not in `Create Vinyl Group` menu."@,
        ImportError::CountMismatch =>
            "The located address does not hold the entered layer count. Enter the EXACT current layer count and re-run Auto-locate."@,
        ImportError::TooFewLayers => "Layer count below 100"@,
        ImportError::NoTable =>
            "cLiveryLayer table is invalid. You are probably not in `Create Vinyl Group` menu."@,
        ImportError::WriteFailed =>
            "Import aborted: write failed (wrong located table / grouped vinyl / wrong editor state). See log above."@,
    }
}

impl ImportError {
    /// The text of the error.
    pub fn text(&self) -> (r: &'static str)
        ensures
            r@ == import_error_text(*self),
    {
        match self {
            ImportError::NoLivery => "Could not resolve CLivery via signature chain",
            ImportError::NoGroup =>
                "cLiveryGroup is invalid. You are probably not in `Create Vinyl Group` menu.",
            ImportError::CountMismatch =>
                "The located address does not hold the entered layer count. Enter the EXACT current layer count and re-run Auto-locate.",
            ImportError::TooFewLayers => "Layer count below 100",
            ImportError::NoTable =>
                "cLiveryLayer table is invalid. You are probably not in `Create Vinyl Group` menu.",
            ImportError::WriteFailed =>
                "Import aborted: write failed (wrong located table / grouped vinyl / wrong editor state). See log above.",
        }
    }
}

/// What an import comes to.
pub struct ImportOutcome {
    pub result: Result<(), ImportError>,
    /// What was reported on the way.
    pub notices: Seq<Notice>,
    /// The writes that succeeded, in their order.
    pub writes: Seq<FieldWrite>,
}

/// What is imported, and where to.
pub struct ImportJob {
    pub profile: GameProfile,
    pub pid: u32,
    /// Whether the number of layers is read as two bytes.
    pub short_count: bool,
    pub count_address: Option<u64>,
    pub table_address: Option<u64>,
    pub expected_count: Option<u32>,
    pub edge_mask: bool,
    pub geometry: GeometryView,
}

/// The writes that succeeded, after an answer.
pub open spec fn after_write(
    writes: Seq<FieldWrite>,
    request: RequestView,
    reply: Reply,
) -> Seq<FieldWrite> {
    match (request, reply) {
        (RequestView::Write(f), Reply::Written(true)) => writes.push(f),
        _ => writes,
    }
}

/// An import that ends before it writes anything.
pub open spec fn refused(e: ImportError, notices: Seq<Notice>) -> ImportOutcome {
    ImportOutcome { result: Err(e), notices, writes: Seq::empty() }
}

/// The report of a write into slot `i` that failed.
pub open spec fn write_failure(notices: Seq<Notice>, i: int) -> Seq<Notice> {
    let failed = notices.push(Notice::WriteFailed { slot: (i + 1) as u32 });
    if i < 16 {
        failed.push(Notice::LikelyWrongTable).push(Notice::UseLargerTemplate).push(
            Notice::LocateAgain,
        )
    } else {
        failed.push(Notice::PossiblyGrouped).push(Notice::CheckEditor)
    }
}

/// The report before slot `i` of `total` is written: for the first slot, every
/// hundredth and the last.
pub open spec fn progress(notices: Seq<Notice>, i: int, total: int) -> Seq<Notice> {
    if 0 <= i < total && (i == 0 || (i + 1) % 100 == 0 || i + 1 == total) {
        notices.push(Notice::WritingLayer { layer: (i + 1) as u32, total: total as u32 })
    } else {
        notices
    }
}

/// The end of an import that has come to write `k` of slot `i`.
#[verifier::opaque]
pub open spec fn written(
    w: World,
    p: GameProfile,
    addresses: Seq<u64>,
    shapes: Seq<Shape>,
    background: Color,
    total: int,
    i: int,
    k: int,
    notices: Seq<Notice>,
    writes: Seq<FieldWrite>,
) -> ImportOutcome
    decreases total - i, slot_writes(p, addresses, shapes, i).len() - k,
{
    let now = slot_writes(p, addresses, shapes, i);
    if i >= total {
        ImportOutcome {
            result: Ok(()),
            notices: notices.push(Notice::Done).push(
                Notice::BackgroundColor { r: background.r, g: background.g, b: background.b },
            ),
            writes,
        }
    } else if k >= now.len() {
        written(
            w,
            p,
            addresses,
            shapes,
            background,
            total,
            i + 1,
            0,
            progress(notices, i + 1, total),
            writes,
        )
    } else if (w.accepts)(now[k]) {
        written(
            w,
            p,
            addresses,
            shapes,
            background,
            total,
            i,
            k + 1,
            notices,
            writes.push(now[k]),
        )
    } else {
        ImportOutcome {
            result: Err(ImportError::WriteFailed),
            notices: write_failure(notices, i),
            writes,
        }
    }
}

/// The end of an import, when the template has `count` layers in the table at
/// `table`.
#[verifier::opaque]
pub open spec fn with_table(
    w: World,
    job: ImportJob,
    count: u32,
    table: u64,
    notices: Seq<Notice>,
) -> ImportOutcome {
    if count < 100 {
        refused(
            ImportError::TooFewLayers,
            notices.push(Notice::ReadInstructions).push(Notice::LoadUngrouped).push(
                Notice::EnterExactCount,
            ),
        )
    } else if table == 0 {
        refused(ImportError::NoTable, notices)
    } else {
        written(
            w,
            job.profile,
            pointers((w.read)(table, (count * 8) as u64)),
            placed(job.geometry, count, job.edge_mask),
            job.geometry.background,
            count as int,
            0,
            0,
            progress(notices.push(Notice::TableAt { address: table }), 0, count as int),
            Seq::empty(),
        )
    }
}

/// The end of an import, when the number of layers at `address` is `count`.
#[verifier::opaque]
pub open spec fn with_count(
    w: World,
    job: ImportJob,
    address: u64,
    count: u32,
    notices: Seq<Notice>,
) -> ImportOutcome {
    match job.table_address {
        Some(table) => with_table(w, job, count, table, notices),
        None => {
            let field = plus(address, FH6_DISCOVERED_TABLE_POINTER_DELTA);
            let table = w.u64_at(field);
            with_table(w, job, count, table, notices.push(Notice::ManualTable { field, table }))
        },
    }
}

/// The end of an import, when the group of the livery is at `group`.
#[verifier::opaque]
pub open spec fn with_group(
    w: World,
    job: ImportJob,
    group: u64,
    notices: Seq<Notice>,
) -> ImportOutcome {
    if group == 0 {
        refused(ImportError::NoGroup, notices)
    } else {
        with_table(
            w,
            job,
            w.u32_at(plus(group, job.profile.livery_count_offset)),
            w.u64_at(plus(group, job.profile.layer_table_offset)),
            notices.push(Notice::GroupAt { address: group }),
        )
    }
}

/// The end of an import, when the search for the livery came to `found`.
#[verifier::opaque]
pub open spec fn with_livery(
    w: World,
    job: ImportJob,
    found: ChainOutcome,
    notices: Seq<Notice>,
) -> ImportOutcome {
    match found.livery {
        None => refused(ImportError::NoLivery, notices + found.notices),
        Some(livery) => with_group(
            w,
            job,
            w.u64_at(plus(livery, job.profile.livery_group_offset)),
            (notices + found.notices).push(Notice::LiveryAt { address: livery }),
        ),
    }
}

/// What the report of an import starts with.
pub open spec fn opening(job: ImportJob) -> Seq<Notice> {
    seq![Notice::GameRunning { pid: job.pid }]
}

/// The number of layers that the game holds at an address.
pub open spec fn live_count(w: World, job: ImportJob, address: u64) -> u32 {
    if job.short_count {
        w.u16_at(address) as u32
    } else {
        w.u32_at(address)
    }
}

/// The report of the number of layers at an address.
pub open spec fn count_notice(job: ImportJob, address: u64, count: u32) -> Notice {
    if job.short_count {
        Notice::ManualShortCount { address, count }
    } else {
        Notice::ManualCount { address, count }
    }
}

/// The end of an import, when the game holds the number `count` at `address`: where
/// the user entered another number, the address is rejected.
#[verifier::opaque]
pub open spec fn with_live_count(
    w: World,
    job: ImportJob,
    address: u64,
    count: u32,
    notices: Seq<Notice>,
) -> ImportOutcome {
    match job.expected_count {
        Some(expected) => if count == expected {
            with_count(
                w,
                job,
                address,
                count,
                notices.push(Notice::TemplateCount { count, address }),
            )
        } else {
            refused(ImportError::CountMismatch, notices.push(count_notice(job, address, count)))
        },
        None => with_count(
            w,
            job,
            address,
            count,
            notices.push(count_notice(job, address, count)),
        ),
    }
}

/// What an import comes to in the world `w`. With a known address of the number of
/// layers what the game holds there counts, if the user entered no other number;
/// without one the livery is searched for.
pub open spec fn imported(w: World, job: ImportJob) -> ImportOutcome {
    match job.count_address {
        Some(address) => with_live_count(
            w,
            job,
            address,
            live_count(w, job, address),
            opening(job),
        ),
        None => with_livery(w, job, livery_search(w, job.profile), opening(job)),
    }
}

/// Where an import has come to.
#[derive(Clone, Copy)]
enum ImportStage {
    Count { address: u64 },
    Table { address: u64, count: u32 },
    Livery,
    Group { livery: u64 },
    Layers { group: u64 },
    Pointers { count: u32, table: u64 },
    Write,
    Done { result: Result<(), ImportError> },
}

/// The layers that an import writes.
struct LayerWork {
    total: u32,
    addresses: Vec<u64>,
    shapes: Vec<Shape>,
    /// The writes of the current slot.
    pending: Vec<FieldWrite>,
    slot: u32,
    field: usize,
}

/// An import, one request at a time.
pub struct Import {
    profile: GameProfile,
    pid: u32,
    short_count: bool,
    count_address: Option<u64>,
    table_address: Option<u64>,
    expected_count: Option<u32>,
    edge_mask: bool,
    geometry: Geometry,
    chain: LiveryChain,
    stage: ImportStage,
    work: LayerWork,
    notices: Vec<Notice>,
    writes: Ghost<Seq<FieldWrite>>,
}

/// The most writes that the layers of a template take.
spec fn write_bound(total: int) -> int {
    6 * total
}

/// Adds the notices of `more` behind those of `to`.
fn append(to: &mut Vec<Notice>, more: &Vec<Notice>)
    ensures
        final(to)@ == old(to)@ + more@,
{
    for i in 0..more.len()
        invariant
            to@ == old(to)@ + more@.take(i as int),
    {
        to.push(more[i]);
        assert(to@ =~= old(to)@ + more@.take(i + 1));
    }
    assert(more@.take(more@.len() as int) =~= more@);
}

/// Reports that slot `i` of `total` is to be written, where that is due.
fn report_progress(notices: &mut Vec<Notice>, i: u32, total: u32)
    ensures
        final(notices)@ == progress(old(notices)@, i as int, total as int),
{
    if i < total && (i == 0 || (i + 1) % 100 == 0 || i + 1 == total) {
        notices.push(Notice::WritingLayer { layer: i + 1, total });
    }
}

/// Where the next write is, from write `k` of slot `i` on, and what is reported on
/// the way.
spec fn next_write(
    p: GameProfile,
    addresses: Seq<u64>,
    shapes: Seq<Shape>,
    total: int,
    i: int,
    k: int,
    notices: Seq<Notice>,
) -> (int, int, Seq<Notice>)
    decreases total - i,
{
    if i >= total || k < slot_writes(p, addresses, shapes, i).len() {
        (i, k, notices)
    } else {
        next_write(p, addresses, shapes, total, i + 1, 0, progress(notices, i + 1, total))
    }
}

/// Nothing is written on the way to the next write.
proof fn lemma_next_write(
    w: World,
    p: GameProfile,
    addresses: Seq<u64>,
    shapes: Seq<Shape>,
    background: Color,
    total: int,
    i: int,
    k: int,
    notices: Seq<Notice>,
    writes: Seq<FieldWrite>,
)
    ensures
        written(w, p, addresses, shapes, background, total, i, k, notices, writes) == ({
            let (i1, k1, n1) = next_write(p, addresses, shapes, total, i, k, notices);
            written(w, p, addresses, shapes, background, total, i1, k1, n1, writes)
        }),
    decreases total - i,
{
    reveal_with_fuel(written, 1);
    if !(i >= total || k < slot_writes(p, addresses, shapes, i).len()) {
        lemma_next_write(
            w,
            p,
            addresses,
            shapes,
            background,
            total,
            i + 1,
            0,
            progress(notices, i + 1, total),
            writes,
        );
    }
}

impl LayerWork {
    /// Whether the writes are those of the slot.
    spec fn wf(self, p: GameProfile) -> bool {
        &&& self.slot <= self.total
        &&& self.pending@ == slot_writes(p, self.addresses@, self.shapes@, self.slot as int)
        &&& self.field <= self.pending@.len()
        &&& self.slot == self.total ==> self.field == 0
    }

    /// How many writes are left at most.
    spec fn left(self) -> int {
        write_bound(self.total - self.slot) - self.field
    }

    /// What the import comes to from here on.
    spec fn outcome(
        self,
        w: World,
        p: GameProfile,
        background: Color,
        notices: Seq<Notice>,
        writes: Seq<FieldWrite>,
    ) -> ImportOutcome {
        written(
            w,
            p,
            self.addresses@,
            self.shapes@,
            background,
            self.total as int,
            self.slot as int,
            self.field as int,
            notices,
            writes,
        )
    }

    proof fn lemma_settled(
        self,
        w: World,
        p: GameProfile,
        background: Color,
        notices: Seq<Notice>,
        writes: Seq<FieldWrite>,
    )
        ensures
            self.outcome(w, p, background, notices, writes) == ({
                let (i, k, n) = next_write(
                    p,
                    self.addresses@,
                    self.shapes@,
                    self.total as int,
                    self.slot as int,
                    self.field as int,
                    notices,
                );
                written(
                    w,
                    p,
                    self.addresses@,
                    self.shapes@,
                    background,
                    self.total as int,
                    i,
                    k,
                    n,
                    writes,
                )
            }),
    {
        lemma_next_write(
            w,
            p,
            self.addresses@,
            self.shapes@,
            background,
            self.total as int,
            self.slot as int,
            self.field as int,
            notices,
            writes,
        );
    }

    /// Goes on to the next write.
    fn settle(&mut self, p: &GameProfile, notices: &mut Vec<Notice>)
        requires
            old(self).wf(*p),
        ensures
            final(self).wf(*p),
            final(self).addresses == old(self).addresses,
            final(self).shapes == old(self).shapes,
            final(self).total == old(self).total,
            final(self).left() <= old(self).left(),
            final(self).slot < final(self).total ==> final(self).field < final(self).pending@.len(),
            (final(self).slot as int, final(self).field as int, final(notices)@) == next_write(
                *p,
                old(self).addresses@,
                old(self).shapes@,
                old(self).total as int,
                old(self).slot as int,
                old(self).field as int,
                old(notices)@,
            ),
    {
        let ghost goal = next_write(
            *p,
            self.addresses@,
            self.shapes@,
            self.total as int,
            self.slot as int,
            self.field as int,
            notices@,
        );
        while self.slot < self.total && self.field >= self.pending.len()
            invariant
                self.wf(*p),
                self.addresses == old(self).addresses,
                self.shapes == old(self).shapes,
                self.total == old(self).total,
                self.left() <= old(self).left(),
                goal == next_write(
                    *p,
                    self.addresses@,
                    self.shapes@,
                    self.total as int,
                    self.slot as int,
                    self.field as int,
                    notices@,
                ),
            decreases self.total - self.slot,
        {
            let next: u32 = self.slot + 1;
            self.slot = next;
            self.field = 0;
            report_progress(notices, next, self.total);
            self.pending = plan_slot(p, &self.addresses, &self.shapes, next as usize);
        }
    }
}

impl Import {
    /// What was reported so far.
    pub closed spec fn reported(self) -> Seq<Notice> {
        self.notices@
    }

    /// What was written so far.
    pub closed spec fn wrote(self) -> Seq<FieldWrite> {
        self.writes@
    }

    /// What is imported, and where to.
    pub closed spec fn job(self) -> ImportJob {
        ImportJob {
            profile: self.profile,
            pid: self.pid,
            short_count: self.short_count,
            count_address: self.count_address,
            table_address: self.table_address,
            expected_count: self.expected_count,
            edge_mask: self.edge_mask,
            geometry: self.geometry@,
        }
    }

    /// Whether the import is at a place of its work.
    pub closed spec fn wf(self) -> bool {
        match self.stage {
            ImportStage::Livery => self.chain.wf() && self.chain.asks() is Some && self.chain.game()
                == self.profile && self.writes@ == Seq::<FieldWrite>::empty(),
            ImportStage::Pointers { count, table } => count >= 100 && self.writes@ == Seq::<
                FieldWrite,
            >::empty(),
            ImportStage::Write => {
                &&& self.work.slot < self.work.total
                &&& self.work.pending@ == slot_writes(
                    self.profile,
                    self.work.addresses@,
                    self.work.shapes@,
                    self.work.slot as int,
                )
                &&& self.work.field < self.work.pending@.len()
            },
            ImportStage::Done { result } => true,
            _ => self.writes@ == Seq::<FieldWrite>::empty(),
        }
    }

    /// The next request; none when the import has ended.
    pub closed spec fn asks(self) -> Option<RequestView> {
        let p = self.profile;
        match self.stage {
            ImportStage::Count { address } => Some(
                one_read(
                    address,
                    if self.short_count {
                        2
                    } else {
                        4
                    },
                ),
            ),
            ImportStage::Table { address, count } => Some(
                one_read(plus(address, FH6_DISCOVERED_TABLE_POINTER_DELTA), 8),
            ),
            ImportStage::Livery => self.chain.asks(),
            ImportStage::Group { livery } => Some(
                one_read(plus(livery, p.livery_group_offset), 8),
            ),
            ImportStage::Layers { group } => Some(
                RequestView::Read(
                    seq![
                        Span { address: plus(group, p.livery_count_offset), size: 4 },
                        Span { address: plus(group, p.layer_table_offset), size: 8 },
                    ],
                ),
            ),
            ImportStage::Pointers { count, table } => Some(one_read(table, (count * 8) as u64)),
            ImportStage::Write => Some(
                RequestView::Write(self.work.pending@[self.work.field as int]),
            ),
            ImportStage::Done { result } => None,
        }
    }

    /// What the import comes to where requests are answered from now on as in `w`.
    pub closed spec fn expects(self, w: World) -> ImportOutcome {
        let job = self.job();
        let notices = self.notices@;
        match self.stage {
            ImportStage::Count { address } => with_live_count(
                w,
                job,
                address,
                live_count(w, job, address),
                notices,
            ),
            ImportStage::Table { address, count } => {
                let field = plus(address, FH6_DISCOVERED_TABLE_POINTER_DELTA);
                let table = w.u64_at(field);
                with_table(
                    w,
                    job,
                    count,
                    table,
                    notices.push(Notice::ManualTable { field, table }),
                )
            },
            ImportStage::Livery => with_livery(w, job, self.chain.expects(w), notices),
            ImportStage::Group { livery } => with_group(
                w,
                job,
                w.u64_at(plus(livery, job.profile.livery_group_offset)),
                notices,
            ),
            ImportStage::Layers { group } => with_table(
                w,
                job,
                w.u32_at(plus(group, job.profile.livery_count_offset)),
                w.u64_at(plus(group, job.profile.layer_table_offset)),
                notices,
            ),
            ImportStage::Pointers { count, table } => written(
                w,
                job.profile,
                pointers((w.read)(table, (count * 8) as u64)),
                placed(job.geometry, count, job.edge_mask),
                job.geometry.background,
                count as int,
                0,
                0,
                progress(notices, 0, count as int),
                Seq::empty(),
            ),
            ImportStage::Write => written(
                w,
                job.profile,
                self.work.addresses@,
                self.work.shapes@,
                job.geometry.background,
                self.work.total as int,
                self.work.slot as int,
                self.work.field as int,
                notices,
                self.writes@,
            ),
            ImportStage::Done { result } => ImportOutcome { result, notices, writes: self.writes@ },
        }
    }

    /// How far the import still has to go.
    pub closed spec fn measure(self) -> nat {
        match self.stage {
            ImportStage::Livery => (write_bound(0x1_0000_0000) + 6 + self.chain.measure()) as nat,
            ImportStage::Group { .. } => (write_bound(0x1_0000_0000) + 5) as nat,
            ImportStage::Layers { .. } => (write_bound(0x1_0000_0000) + 4) as nat,
            ImportStage::Count { .. } => (write_bound(0x1_0000_0000) + 3) as nat,
            ImportStage::Table { .. } => (write_bound(0x1_0000_0000) + 2) as nat,
            ImportStage::Pointers { .. } => (write_bound(0x1_0000_0000) + 1) as nat,
            ImportStage::Write => (write_bound(self.work.total - self.work.slot)
                - self.work.field) as nat,
            ImportStage::Done { .. } => 0,
        }
    }

    /// Whether nothing but the stage, the work and what was reported changed.
    spec fn same_job(self, other: Import) -> bool {
        self.job() == other.job() && self.geometry == other.geometry
    }

    /// Ends the import before it writes anything.
    fn refuse(&mut self, e: ImportError)
        requires
            old(self).writes@ == Seq::<FieldWrite>::empty(),
        ensures
            final(self).wf(),
            final(self).same_job(*old(self)),
            final(self).writes == old(self).writes,
            final(self).measure() == 0,
            forall|w: World| #[trigger] final(self).expects(w) == refused(e, old(self).notices@),
    {
        self.stage = ImportStage::Done { result: Err(e) };
    }

    /// Goes on with `count` layers in the table at `table`.
    fn use_table(&mut self, count: u32, table: u64)
        requires
            old(self).writes@ == Seq::<FieldWrite>::empty(),
        ensures
            final(self).wf(),
            final(self).same_job(*old(self)),
            final(self).writes == old(self).writes,
            final(self).measure() <= write_bound(0x1_0000_0000) + 1,
            forall|w: World| #[trigger]
                final(self).expects(w) == with_table(
                    w,
                    old(self).job(),
                    count,
                    table,
                    old(self).notices@,
                ),
    {
        reveal(with_table);
        if count < 100 {
            self.notices.push(Notice::ReadInstructions);
            self.notices.push(Notice::LoadUngrouped);
            self.notices.push(Notice::EnterExactCount);
            self.refuse(ImportError::TooFewLayers);
        } else if table == 0 {
            self.refuse(ImportError::NoTable);
        } else {
            self.notices.push(Notice::TableAt { address: table });
            self.stage = ImportStage::Pointers { count, table };
        }
    }

    /// Goes on with the number of layers `count`, which the game keeps at
    /// `address`.
    fn use_count(&mut self, address: u64, count: u32)
        requires
            old(self).writes@ == Seq::<FieldWrite>::empty(),
        ensures
            final(self).wf(),
            final(self).same_job(*old(self)),
            final(self).writes == old(self).writes,
            final(self).measure() <= write_bound(0x1_0000_0000) + 2,
            forall|w: World| #[trigger]
                final(self).expects(w) == with_count(
                    w,
                    old(self).job(),
                    address,
                    count,
                    old(self).notices@,
                ),
    {
        reveal(with_count);
        match self.table_address {
            Some(table) => {
                self.use_table(count, table);
            },
            None => {
                self.stage = ImportStage::Table { address, count };
            },
        }
    }

    /// Goes on with the number of layers `count` that the game holds at `address`.
    fn use_live_count(&mut self, address: u64, count: u32)
        requires
            old(self).writes@ == Seq::<FieldWrite>::empty(),
        ensures
            final(self).wf(),
            final(self).same_job(*old(self)),
            final(self).writes == old(self).writes,
            final(self).measure() <= write_bound(0x1_0000_0000) + 2,
            forall|w: World| #[trigger]
                final(self).expects(w) == with_live_count(
                    w,
                    old(self).job(),
                    address,
                    count,
                    old(self).notices@,
                ),
    {
        reveal(with_live_count);
        let found = if self.short_count {
            Notice::ManualShortCount { address, count }
        } else {
            Notice::ManualCount { address, count }
        };
        match self.expected_count {
            Some(expected) => {
                if count == expected {
                    self.notices.push(Notice::TemplateCount { count, address });
                    self.use_count(address, count);
                } else {
                    self.notices.push(found);
                    self.refuse(ImportError::CountMismatch);
                }
            },
            None => {
                self.notices.push(found);
                self.use_count(address, count);
            },
        }
    }

    /// Goes on with the group of the livery.
    fn use_group(&mut self, group: u64)
        requires
            old(self).writes@ == Seq::<FieldWrite>::empty(),
        ensures
            final(self).wf(),
            final(self).same_job(*old(self)),
            final(self).writes == old(self).writes,
            final(self).measure() <= write_bound(0x1_0000_0000) + 4,
            forall|w: World| #[trigger]
                final(self).expects(w) == with_group(w, old(self).job(), group, old(self).notices@),
    {
        reveal(with_group);
        if group == 0 {
            self.refuse(ImportError::NoGroup);
        } else {
            self.notices.push(Notice::GroupAt { address: group });
            self.stage = ImportStage::Layers { group };
        }
    }

    /// Goes on behind the current slot where all of its writes were made, until
    /// there is a write to make or nothing is left.
    fn settle(&mut self)
        requires
            old(self).work.wf(old(self).profile),
        ensures
            final(self).wf(),
            final(self).same_job(*old(self)),
            final(self).writes == old(self).writes,
            final(self).measure() <= old(self).work.left(),
            forall|w: World| #[trigger]
                final(self).expects(w) == old(self).work.outcome(
                    w,
                    old(self).profile,
                    old(self).geometry.background,
                    old(self).notices@,
                    old(self).writes@,
                ),
    {
        let ghost start = *self;
        self.work.settle(&self.profile, &mut self.notices);
        let ghost settled = self.notices@;
        proof {
            assert forall|w: World| #[trigger]
                self.work.outcome(
                    w,
                    start.profile,
                    start.geometry.background,
                    self.notices@,
                    start.writes@,
                ) == start.work.outcome(
                    w,
                    start.profile,
                    start.geometry.background,
                    start.notices@,
                    start.writes@,
                ) by {
                start.work.lemma_settled(
                    w,
                    start.profile,
                    start.geometry.background,
                    start.notices@,
                    start.writes@,
                );
            }
        }
        if self.work.slot < self.work.total {
            self.stage = ImportStage::Write;
            assert forall|w: World| #[trigger]
                self.expects(w) == start.work.outcome(
                    w,
                    start.profile,
                    start.geometry.background,
                    start.notices@,
                    start.writes@,
                ) by {
                assert(self.work.outcome(
                    w,
                    start.profile,
                    start.geometry.background,
                    settled,
                    start.writes@,
                ) == self.expects(w));
            }
        } else {
            self.notices.push(Notice::Done);
            let c = self.geometry.background;
            self.notices.push(Notice::BackgroundColor { r: c.r, g: c.g, b: c.b });
            self.stage = ImportStage::Done { result: Ok(()) };
            assert forall|w: World| #[trigger]
                self.expects(w) == start.work.outcome(
                    w,
                    start.profile,
                    start.geometry.background,
                    start.notices@,
                    start.writes@,
                ) by {
                assert(self.work.outcome(
                    w,
                    start.profile,
                    start.geometry.background,
                    settled,
                    start.writes@,
                ) == self.expects(w)) by {
                    reveal_with_fuel(written, 1);
                }
            }
        }
    }

    /// Starts to write with the bytes of the table of layers.
    fn use_pointers(&mut self, count: u32, raw: &Vec<u8>)
        requires
            count >= 100,
            old(self).writes@ == Seq::<FieldWrite>::empty(),
        ensures
            final(self).wf(),
            final(self).same_job(*old(self)),
            final(self).writes == old(self).writes,
            final(self).measure() <= write_bound(0x1_0000_0000),
            forall|w: World| #[trigger]
                final(self).expects(w) == written(
                    w,
                    old(self).profile,
                    pointers(raw@),
                    placed(old(self).geometry@, count, old(self).edge_mask),
                    old(self).geometry.background,
                    count as int,
                    0,
                    0,
                    progress(old(self).notices@, 0, count as int),
                    Seq::empty(),
                ),
    {
        let addresses = read_pointers(raw);
        let shapes = place(&self.geometry, count, self.edge_mask);
        let pending = plan_slot(&self.profile, &addresses, &shapes, 0);
        self.work = LayerWork { total: count, addresses, shapes, pending, slot: 0, field: 0 };
        report_progress(&mut self.notices, 0, count);
        self.settle();
    }

    /// Takes whether the write succeeded.
    fn note_write(&mut self, ok: bool)
        requires
            old(self).wf(),
            old(self).stage is Write,
        ensures
            final(self).wf(),
            final(self).same_job(*old(self)),
            final(self).writes@ == (if ok {
                old(self).writes@.push(old(self).work.pending@[old(self).work.field as int])
            } else {
                old(self).writes@
            }),
            final(self).measure() < old(self).measure(),
            forall|w: World|
                ok == (w.accepts)(old(self).work.pending@[old(self).work.field as int])
                    ==> #[trigger] final(self).expects(w) == old(self).expects(w),
    {
        let ghost start = *self;
        let ghost now = self.work.pending@[self.work.field as int];
        if ok {
            proof {
                self.writes@ = self.writes@.push(now);
            }
            self.work.field = self.work.field + 1;
            let ghost moved = *self;
            self.settle();
            assert forall|w: World| ok == (w.accepts)(now) implies #[trigger] self.expects(w)
                == start.expects(w) by {
                assert(moved.work.outcome(
                    w,
                    moved.profile,
                    moved.geometry.background,
                    moved.notices@,
                    moved.writes@,
                ) == start.expects(w)) by {
                    reveal_with_fuel(written, 1);
                }
            }
        } else {
            let slot: u32 = self.work.slot;
            self.notices.push(Notice::WriteFailed { slot: slot + 1 });
            if slot < 16 {
                self.notices.push(Notice::LikelyWrongTable);
                self.notices.push(Notice::UseLargerTemplate);
                self.notices.push(Notice::LocateAgain);
            } else {
                self.notices.push(Notice::PossiblyGrouped);
                self.notices.push(Notice::CheckEditor);
            }
            self.stage = ImportStage::Done { result: Err(ImportError::WriteFailed) };
            assert forall|w: World| ok == (w.accepts)(now) implies #[trigger] self.expects(w)
                == start.expects(w) by {
                reveal_with_fuel(written, 1);
            }
        }
    }

    /// Takes an answer on the way to the livery.
    fn search_on(&mut self, reply: Reply)
        requires
            old(self).wf(),
            old(self).stage is Livery,
            fits(old(self).asks().unwrap(), reply),
        ensures
            final(self).wf(),
            final(self).same_job(*old(self)),
            final(self).writes == old(self).writes,
            final(self).measure() < old(self).measure(),
            forall|w: World|
                answered(w, old(self).asks().unwrap(), reply) ==> #[trigger] final(self).expects(w)
                    == old(self).expects(w),
    {
        reveal(with_livery);
        let ghost start = *self;
        let ghost asked_for = self.asks().unwrap();
        let ghost given = reply;
        self.chain.answer(reply);
        let ghost moved = *self;
        assert forall|w: World| answered(w, asked_for, given) implies start.expects(w)
            == #[trigger] moved.expects(w) by {
            assert(moved.chain.expects(w) == start.chain.expects(w));
        }
        if self.chain.ended() {
            let livery = self.chain.livery();
            append(&mut self.notices, self.chain.notices());
            match livery {
                None => {
                    self.refuse(ImportError::NoLivery);
                },
                Some(address) => {
                    self.notices.push(Notice::LiveryAt { address });
                    self.stage = ImportStage::Group { livery: address };
                },
            }
            assert forall|w: World| #[trigger] self.expects(w) == moved.expects(w) by {
                assert(moved.chain.expects(w).livery == livery);
            }
        }
    }

    /// Takes the answer to the request.
    pub fn answer(&mut self, reply: Reply)
        requires
            old(self).wf(),
            old(self).asks() matches Some(request) && fits(request, reply),
        ensures
            final(self).wf(),
            final(self).job() == old(self).job(),
            final(self).wrote() == after_write(old(self).wrote(), old(self).asks().unwrap(), reply),
            final(self).measure() < old(self).measure(),
            forall|w: World|
                answered(w, old(self).asks().unwrap(), reply) ==> #[trigger] final(self).expects(w)
                    == old(self).expects(w),
    {
        proof {
            self.chain.law_chain_only_reads();
        }
        match self.stage {
            ImportStage::Livery => {
                self.search_on(reply);
            },
            ImportStage::Write => {
                if let Reply::Written(ok) = reply {
                    self.note_write(ok);
                }
            },
            _ => {
                if let Reply::Blocks(blocks) = &reply {
                    self.use_blocks(blocks);
                }
            },
        }
    }

    /// Takes the bytes that were read.
    fn use_blocks(&mut self, blocks: &Vec<Vec<u8>>)
        requires
            old(self).wf(),
            !(old(self).stage is Livery),
            old(self).asks() matches Some(RequestView::Read(spans)) && spans.len() == blocks@.len(),
        ensures
            final(self).wf(),
            final(self).same_job(*old(self)),
            final(self).writes == old(self).writes,
            final(self).measure() < old(self).measure(),
            forall|w: World|
                read_from(w, old(self).asks().unwrap(), blocks@) ==> #[trigger] final(
                    self).expects(w) == old(self).expects(w),
    {
        match self.stage {
            ImportStage::Count { address } => {
                let count: u32 = if self.short_count {
                    read_u16(&blocks[0]) as u32
                } else {
                    read_u32(&blocks[0])
                };
                self.use_live_count(address, count);
            },
            ImportStage::Table { address, count } => {
                let table: u64 = read_u64(&blocks[0]);
                let field: u64 = offset_by(address, FH6_DISCOVERED_TABLE_POINTER_DELTA);
                self.notices.push(Notice::ManualTable { field, table });
                self.use_table(count, table);
            },
            ImportStage::Group { livery } => {
                self.use_group(read_u64(&blocks[0]));
            },
            ImportStage::Layers { group } => {
                self.use_table(read_u32(&blocks[0]), read_u64(&blocks[1]));
            },
            ImportStage::Pointers { count, table } => {
                self.use_pointers(count, &blocks[0]);
            },
            _ => {},
        }
    }

    /// The next request; none when the import has ended.
    pub fn request(&self) -> (r: Option<Request>)
        requires
            self.wf(),
        ensures
            asked(r) == self.asks(),
    {
        let p = &self.profile;
        match self.stage {
            ImportStage::Count { address } => Some(
                read_one(
                    address,
                    if self.short_count {
                        2
                    } else {
                        4
                    },
                ),
            ),
            ImportStage::Table { address, count } => Some(
                read_one(offset_by(address, FH6_DISCOVERED_TABLE_POINTER_DELTA), 8),
            ),
            ImportStage::Livery => self.chain.request(),
            ImportStage::Group { livery } => Some(
                read_one(offset_by(livery, p.livery_group_offset), 8),
            ),
            ImportStage::Layers { group } => {
                let spans = vec![
                    Span { address: offset_by(group, p.livery_count_offset), size: 4 },
                    Span { address: offset_by(group, p.layer_table_offset), size: 8 },
                ];
                assert(spans@ =~= seq![
                    Span { address: plus(group, p.livery_count_offset), size: 4 },
                    Span { address: plus(group, p.layer_table_offset), size: 8 },
                ]);
                Some(Request::Read(spans))
            },
            ImportStage::Pointers { count, table } => Some(read_one(table, count as u64 * 8)),
            ImportStage::Write => Some(Request::Write(self.work.pending[self.work.field])),
            ImportStage::Done { result } => None,
        }
    }

    /// What was written so far is the start of what is written in the end, whatever
    /// the answers are from now on.
    pub proof fn law_writes_are_final(self, w: World)
        requires
            self.wf(),
        ensures
            self.wrote().is_prefix_of(self.expects(w).writes),
    {
        if self.stage is Write {
            lemma_written_grows(
                w,
                self.profile,
                self.work.addresses@,
                self.work.shapes@,
                self.geometry.background,
                self.work.total as int,
                self.work.slot as int,
                self.work.field as int,
                self.notices@,
                self.writes@,
            );
        }
    }

    /// What was reported so far is the start of what is reported in the end, whatever
    /// the answers are from now on.
    pub proof fn law_reports_are_final(self, w: World)
        requires
            self.wf(),
        ensures
            begins(self.reported(), self.expects(w).notices),
    {
        broadcast use group_begins;

        let job = self.job();
        let notices = self.notices@;
        match self.stage {
            ImportStage::Count { address } => {
                reveal(with_live_count);
                let count = live_count(w, job, address);
                let found = notices.push(count_notice(job, address, count));
                lemma_with_count_reports(w, job, address, count, found);
                lemma_begins_chain(
                    notices,
                    found,
                    with_count(w, job, address, count, found).notices,
                );
                let entered = notices.push(Notice::TemplateCount { count, address });
                lemma_with_count_reports(w, job, address, count, entered);
                lemma_begins_chain(
                    notices,
                    entered,
                    with_count(w, job, address, count, entered).notices,
                );
            },
            ImportStage::Table { address, count } => {
                let field = plus(address, FH6_DISCOVERED_TABLE_POINTER_DELTA);
                let table = w.u64_at(field);
                let more = notices.push(Notice::ManualTable { field, table });
                lemma_with_table_reports(w, job, count, table, more);
                lemma_begins_chain(notices, more, self.expects(w).notices);
            },
            ImportStage::Livery => {
                reveal(with_livery);
                let found = self.chain.expects(w);
                if let Some(livery) = found.livery {
                    let group = w.u64_at(plus(livery, job.profile.livery_group_offset));
                    let more = (notices + found.notices).push(
                        Notice::LiveryAt { address: livery },
                    );
                    lemma_with_group_reports(w, job, group, more);
                    lemma_begins_chain(notices, more, self.expects(w).notices);
                }
            },
            ImportStage::Group { livery } => {
                let group = w.u64_at(plus(livery, job.profile.livery_group_offset));
                lemma_with_group_reports(w, job, group, notices);
            },
            ImportStage::Layers { group } => {
                lemma_with_table_reports(
                    w,
                    job,
                    w.u32_at(plus(group, job.profile.livery_count_offset)),
                    w.u64_at(plus(group, job.profile.layer_table_offset)),
                    notices,
                );
            },
            ImportStage::Pointers { count, table } => {
                let more = progress(notices, 0, count as int);
                lemma_written_grows(
                    w,
                    self.profile,
                    pointers((w.read)(table, (count * 8) as u64)),
                    placed(job.geometry, count, job.edge_mask),
                    self.geometry.background,
                    count as int,
                    0,
                    0,
                    more,
                    Seq::empty(),
                );
                lemma_begins_chain(notices, more, self.expects(w).notices);
            },
            ImportStage::Write => {
                lemma_written_grows(
                    w,
                    self.profile,
                    self.work.addresses@,
                    self.work.shapes@,
                    self.geometry.background,
                    self.work.total as int,
                    self.work.slot as int,
                    self.work.field as int,
                    notices,
                    self.writes@,
                );
            },
            ImportStage::Done { result } => {},
        }
    }

    /// The profile that the run goes by.
    pub fn profile(&self) -> (r: &GameProfile)
        ensures
            *r == self.job().profile,
    {
        &self.profile
    }

    /// What was reported so far.
    pub fn notices(&self) -> (r: &Vec<Notice>)
        ensures
            r@ == self.reported(),
    {
        &self.notices
    }

    /// What the import came to.
    pub fn result(&self) -> (r: Result<(), ImportError>)
        requires
            self.asks() is None,
            self.wf(),
        ensures
            forall|w: World| #[trigger]
                self.expects(w) == (ImportOutcome {
                    result: r,
                    notices: self.reported(),
                    writes: self.wrote(),
                }),
    {
        match self.stage {
            ImportStage::Done { result } => result,
            _ => Ok(()),
        }
    }

    /// The import of a geometry into the process `pid`, which runs the game of the
    /// profile.
    pub fn new(
        profile: GameProfile,
        pid: u32,
        short_count: bool,
        args: &ImportArgs,
        geometry: Geometry,
    ) -> (r: Import)
        ensures
            r.wf(),
            r.job() == (ImportJob {
                profile,
                pid,
                short_count,
                count_address: args.layer_count_address,
                table_address: args.layer_table_address,
                expected_count: args.expected_count,
                edge_mask: args.edge_mask,
                geometry: geometry@,
            }),
            r.wrote() == Seq::<FieldWrite>::empty(),
            forall|w: World| #[trigger] r.expects(w) == imported(w, r.job()),
    {
        let mut r = Import {
            profile,
            pid,
            short_count,
            count_address: args.layer_count_address,
            table_address: args.layer_table_address,
            expected_count: args.expected_count,
            edge_mask: args.edge_mask,
            geometry,
            chain: LiveryChain::new(profile),
            stage: ImportStage::Livery,
            work: LayerWork {
                total: 0,
                addresses: Vec::new(),
                shapes: Vec::new(),
                pending: Vec::new(),
                slot: 0,
                field: 0,
            },
            notices: Vec::new(),
            writes: Ghost(Seq::empty()),
        };
        r.notices.push(Notice::GameRunning { pid });
        assert(r.notices@ =~= opening(r.job()));
        if let Some(address) = r.count_address {
            r.stage = ImportStage::Count { address };
        }
        r
    }
}

/// Why a run does not start.
#[derive(Debug)]
pub enum StartError {
    /// The file to import is no geometry.
    Geometry(GeometryError),
    /// No process is meant: none of the wanted game runs, or no game at all.
    NoProcess,
    /// The game with this key is not supported.
    UnsupportedGame(String),
}

/// Why a run does not start, its text as characters.
pub enum StartErrorView {
    Geometry(GeometryError),
    NoProcess,
    UnsupportedGame(Seq<char>),
}

impl View for StartError {
    type V = StartErrorView;

    open spec fn view(&self) -> StartErrorView {
        match self {
            StartError::Geometry(e) => StartErrorView::Geometry(*e),
            StartError::NoProcess => StartErrorView::NoProcess,
            StartError::UnsupportedGame(key) => StartErrorView::UnsupportedGame(key@),
        }
    }
}

/// The text of an error.
pub open spec fn start_error_text(e: StartErrorView) -> Seq<char> {
    match e {
        StartErrorView::Geometry(g) => geometry_error_text(g),
        StartErrorView::NoProcess => "No supported Forza Horizon process is running"@,
        StartErrorView::UnsupportedGame(key) => "Unsupported game '"@ + key + "'"@,
    }
}

/// What a diagnosis says that does not start.
pub open spec fn diagnosis_refusal_text(e: StartErrorView) -> Seq<char> {
    match e {
        StartErrorView::Geometry(g) => geometry_error_text(g),
        StartErrorView::NoProcess => "No supported Forza Horizon process is running."@,
        StartErrorView::UnsupportedGame(key) => "Unsupported game profile '"@ + key + "'."@,
    }
}

impl StartError {
    /// The text of the error.
    pub fn text(&self) -> (r: String)
        ensures
            r@ == start_error_text(self@),
    {
        match self {
            StartError::Geometry(e) => e.text().to_string(),
            StartError::NoProcess => "No supported Forza Horizon process is running".to_string(),
            StartError::UnsupportedGame(key) => {
                let mut s = "Unsupported game '".to_string();
                s.append(key.as_str());
                s.append("'");
                s
            },
        }
    }

    /// What a diagnosis says that does not start.
    pub fn diagnosis_text(&self) -> (r: String)
        ensures
            r@ == diagnosis_refusal_text(self@),
    {
        match self {
            StartError::Geometry(e) => e.text().to_string(),
            StartError::NoProcess => "No supported Forza Horizon process is running.".to_string(),
            StartError::UnsupportedGame(key) => {
                let mut s = "Unsupported game profile '".to_string();
                s.append(key.as_str());
                s.append("'.");
                s
            },
        }
    }
}

/// An optional text.
pub open spec fn named(game: Option<String>) -> Option<Seq<char>> {
    match game {
        Some(g) => Some(g@),
        None => None,
    }
}

/// Why the process that is meant cannot be worked on; nothing where it can.
pub open spec fn start_refusal(meant: Option<(u32, Seq<char>)>) -> Option<StartErrorView> {
    match meant {
        None => Some(StartErrorView::NoProcess),
        Some((pid, key)) => if known_game(key) {
            None
        } else {
            Some(StartErrorView::UnsupportedGame(key))
        },
    }
}

/// Finds the process that is meant and its profile.
pub fn find_target(
    found: &Vec<GameProc>,
    game: Option<&str>,
    pid: Option<u32>,
) -> (r: Result<(u32, String, GameProfile), StartError>)
    ensures
        match r {
            Ok((pid1, key, p)) => resolved(games(found@), optional_text(game), pid) == Some(
                (pid1, key@),
            ) && profile_of(key@, p),
            Err(e) => start_refusal(resolved(games(found@), optional_text(game), pid)) == Some(e@),
        },
{
    match resolve_pid(found, game, pid) {
        None => Err(StartError::NoProcess),
        Some((pid, key)) => match get_profile(key.as_str()) {
            Some(p) => Ok((pid, key, p)),
            None => Err(StartError::UnsupportedGame(key)),
        },
    }
}

/// Starts the diagnosis of the process that is meant among the games `found`, and
/// names the process.
pub fn diagnose(args: &ImportArgs, found: &Vec<GameProc>) -> (r: Result<
    (u32, Diagnosis),
    StartError,
>)
    ensures
        match r {
            Ok((pid, d)) => {
                &&& resolved(games(found@), named(args.game), args.pid) matches Some((pid1, key))
                &&& pid1 == pid
                &&& profile_of(key, d.game())
                &&& d.wf()
                &&& forall|w: World| #[trigger] d.expects(w) == diagnosis(w, d.game(), pid)
            },
            Err(e) => start_refusal(resolved(games(found@), named(args.game), args.pid)) == Some(
                e@,
            ),
        },
{
    let game = match &args.game {
        Some(g) => Some(g.as_str()),
        None => None,
    };
    match find_target(found, game, args.pid) {
        Ok((pid, key, profile)) => Ok((pid, Diagnosis::new(profile, pid))),
        Err(e) => Err(e),
    }
}

/// The game that an import is for: Forza Horizon 6 where none is named.
pub open spec fn import_game(game: Option<String>) -> Seq<char> {
    match game {
        Some(g) => g@,
        None => "fh6"@,
    }
}

/// What the import of a geometry into the process `pid` does.
pub open spec fn import_job(
    args: ImportArgs,
    pid: u32,
    key: Seq<char>,
    profile: GameProfile,
    geometry: GeometryView,
) -> ImportJob {
    ImportJob {
        profile,
        pid,
        short_count: key == "fh6"@,
        count_address: args.layer_count_address,
        table_address: args.layer_table_address,
        expected_count: args.expected_count,
        edge_mask: args.edge_mask,
        geometry,
    }
}

/// Starts the import of the geometry in the document `text`, and names the process.
/// Nothing comes of a document with an entry that decides and is cut short.
pub fn load_geometry(text: &str, args: &ImportArgs, found: &Vec<GameProc>) -> (r: Option<
    Result<(u32, Import), StartError>,
>)
    ensures
        started(r, read_document(text@), *args, games(found@)),
{
    let geometry = match read_geometry(text) {
        None => return None,
        Some(Err(e)) => return Some(Err(StartError::Geometry(e))),
        Some(Ok(g)) => g,
    };
    let game = match &args.game {
        Some(g) => g.as_str(),
        None => "fh6",
    };
    match find_target(found, Some(game), args.pid) {
        Ok((pid, key, profile)) => {
            let short_count = same_text(key.as_str(), "fh6");
            Some(Ok((pid, Import::new(profile, pid, short_count, args, geometry))))
        },
        Err(e) => Some(Err(e)),
    }
}

/// What the text of a document holds; nothing where an entry that decides is cut
/// short.
pub open spec fn read_document(text: Seq<char>) -> Option<Result<GeometryView, GeometryError>> {
    match json_document(text) {
        None => Some(Err(GeometryError::NotJson)),
        Some(doc) => if geometry_readable(doc) {
            Some(geometry_of(doc))
        } else {
            None
        },
    }
}

/// What comes of an attempt to start an import: an error of the document before
/// one of the process, and else the import.
pub open spec fn started(
    r: Option<Result<(u32, Import), StartError>>,
    document: Option<Result<GeometryView, GeometryError>>,
    args: ImportArgs,
    found: Seq<GameProcView>,
) -> bool {
    let meant = resolved(found, Some(import_game(args.game)), args.pid);
    match document {
        None => r is None,
        Some(Err(e)) => r matches Some(Err(f)) && f@ == StartErrorView::Geometry(e),
        Some(Ok(geometry)) => match r {
            None => false,
            Some(Err(f)) => start_refusal(meant) == Some(f@),
            Some(Ok((pid, import))) => {
                &&& meant matches Some((pid1, key))
                &&& pid1 == pid
                &&& profile_of(key, import.job().profile)
                &&& import.job() == import_job(args, pid, key, import.job().profile, geometry)
                &&& import.wf()
                &&& import.wrote() == Seq::<FieldWrite>::empty()
                &&& forall|w: World| #[trigger] import.expects(w) == imported(w, import.job())
            },
        },
    }
}

/// An import keeps what was reported before the table of layers was known.
proof fn lemma_with_table_reports(
    w: World,
    job: ImportJob,
    count: u32,
    table: u64,
    notices: Seq<Notice>,
)
    ensures
        begins(notices, with_table(w, job, count, table, notices).notices),
{
    broadcast use group_begins;

    reveal(with_table);
    if count >= 100 && table != 0 {
        let at = notices.push(Notice::TableAt { address: table });
        let more = progress(at, 0, count as int);
        lemma_written_grows(
            w,
            job.profile,
            pointers((w.read)(table, (count * 8) as u64)),
            placed(job.geometry, count, job.edge_mask),
            job.geometry.background,
            count as int,
            0,
            0,
            more,
            Seq::empty(),
        );
        lemma_begins_chain(notices, at, more);
        lemma_begins_chain(notices, more, with_table(w, job, count, table, notices).notices);
    }
}

/// An import keeps what was reported before the number of layers was known.
proof fn lemma_with_count_reports(
    w: World,
    job: ImportJob,
    address: u64,
    count: u32,
    notices: Seq<Notice>,
)
    ensures
        begins(notices, with_count(w, job, address, count, notices).notices),
{
    broadcast use group_begins;

    reveal(with_count);
    match job.table_address {
        Some(table) => {
            lemma_with_table_reports(w, job, count, table, notices);
        },
        None => {
            let field = plus(address, FH6_DISCOVERED_TABLE_POINTER_DELTA);
            let table = w.u64_at(field);
            let more = notices.push(Notice::ManualTable { field, table });
            lemma_with_table_reports(w, job, count, table, more);
            lemma_begins_chain(
                notices,
                more,
                with_count(w, job, address, count, notices).notices,
            );
        },
    }
}

/// An import keeps what was reported before the group of the livery was known.
proof fn lemma_with_group_reports(w: World, job: ImportJob, group: u64, notices: Seq<Notice>)
    ensures
        begins(notices, with_group(w, job, group, notices).notices),
{
    broadcast use group_begins;

    reveal(with_group);
    if group != 0 {
        let more = notices.push(Notice::GroupAt { address: group });
        lemma_with_table_reports(
            w,
            job,
            w.u32_at(plus(group, job.profile.livery_count_offset)),
            w.u64_at(plus(group, job.profile.layer_table_offset)),
            more,
        );
        lemma_begins_chain(notices, more, with_group(w, job, group, notices).notices);
    }
}

/// An import keeps what was written and reported before.
proof fn lemma_written_grows(
    w: World,
    p: GameProfile,
    addresses: Seq<u64>,
    shapes: Seq<Shape>,
    background: Color,
    total: int,
    i: int,
    k: int,
    notices: Seq<Notice>,
    writes: Seq<FieldWrite>,
)
    ensures
        writes.is_prefix_of(
            written(w, p, addresses, shapes, background, total, i, k, notices, writes).writes,
        ),
        begins(
            notices,
            written(w, p, addresses, shapes, background, total, i, k, notices, writes).notices,
        ),
    decreases total - i, slot_writes(p, addresses, shapes, i).len() - k,
{
    broadcast use group_begins;

    reveal_with_fuel(written, 1);
    let now = slot_writes(p, addresses, shapes, i);
    if i < total {
        if k >= now.len() {
            let more = progress(notices, i + 1, total);
            lemma_written_grows(
                w,
                p,
                addresses,
                shapes,
                background,
                total,
                i + 1,
                0,
                more,
                writes,
            );
            lemma_begins_chain(
                notices,
                more,
                written(w, p, addresses, shapes, background, total, i, k, notices, writes).notices,
            );
        } else if (w.accepts)(now[k]) {
            let more = writes.push(now[k]);
            lemma_written_grows(
                w,
                p,
                addresses,
                shapes,
                background,
                total,
                i,
                k + 1,
                notices,
                more,
            );
            let all = written(
                w,
                p,
                addresses,
                shapes,
                background,
                total,
                i,
                k + 1,
                notices,
                more,
            ).writes;
            assert(more =~= all.take(more.len() as int));
            assert(writes =~= all.take(writes.len() as int)) by {
                assert forall|j: int| 0 <= j < writes.len() implies writes[j] == all[j] by {
                    assert(more[j] == all.take(more.len() as int)[j]);
                }
            }
        }
    }
}

/// The writes of the first `n` slots, one slot after the other.
pub open spec fn template_writes(
    p: GameProfile,
    addresses: Seq<u64>,
    shapes: Seq<Shape>,
    n: int,
) -> Seq<FieldWrite>
    decreases n,
{
    if n <= 0 {
        Seq::empty()
    } else {
        template_writes(p, addresses, shapes, n - 1) + slot_writes(p, addresses, shapes, n - 1)
    }
}

/// The writes of the first slots are the start of the writes of more slots.
pub proof fn lemma_template_prefix(
    p: GameProfile,
    addresses: Seq<u64>,
    shapes: Seq<Shape>,
    i: int,
    n: int,
)
    requires
        0 <= i <= n,
    ensures
        template_writes(p, addresses, shapes, i).is_prefix_of(
            template_writes(p, addresses, shapes, n),
        ),
    decreases n - i,
{
    if i < n {
        lemma_template_prefix(p, addresses, shapes, i, n - 1);
    }
}

/// Whether `writes` are the first of the writes of a whole template, and all of
/// them where `complete` holds.
pub open spec fn writes_template(
    writes: Seq<FieldWrite>,
    complete: bool,
    p: GameProfile,
    addresses: Seq<u64>,
    shapes: Seq<Shape>,
    total: int,
) -> bool {
    let all = template_writes(p, addresses, shapes, total);
    writes.is_prefix_of(all) && (complete ==> writes == all)
}

pub proof fn lemma_written(
    w: World,
    p: GameProfile,
    addresses: Seq<u64>,
    shapes: Seq<Shape>,
    background: Color,
    total: int,
    i: int,
    k: int,
    notices: Seq<Notice>,
    writes: Seq<FieldWrite>,
)
    requires
        0 <= i <= total,
        0 <= k,
        i < total ==> k <= slot_writes(p, addresses, shapes, i).len(),
        i == total ==> k == 0,
        writes == template_writes(p, addresses, shapes, i) + slot_writes(
            p,
            addresses,
            shapes,
            i,
        ).take(k),
    ensures
        ({
            let r = written(w, p, addresses, shapes, background, total, i, k, notices, writes);
            &&& r.result == Ok::<(), ImportError>(()) || r.result == Err::<(), ImportError>(
                ImportError::WriteFailed,
            )
            &&& writes_template(r.writes, r.result is Ok, p, addresses, shapes, total)
        }),
    decreases total - i, slot_writes(p, addresses, shapes, i).len() - k,
{
    reveal_with_fuel(written, 1);
    let now = slot_writes(p, addresses, shapes, i);
    let before = template_writes(p, addresses, shapes, i);
    if i >= total {
        assert(writes =~= before);
    } else if k >= now.len() {
        assert(now.take(k) =~= now);
        assert(slot_writes(p, addresses, shapes, i + 1).take(0) =~= Seq::<FieldWrite>::empty());
        assert(writes =~= template_writes(p, addresses, shapes, i + 1) + slot_writes(
            p,
            addresses,
            shapes,
            i + 1,
        ).take(0));
        lemma_written(
            w,
            p,
            addresses,
            shapes,
            background,
            total,
            i + 1,
            0,
            progress(notices, i + 1, total),
            writes,
        );
    } else if (w.accepts)(now[k]) {
        assert(writes.push(now[k]) =~= before + now.take(k + 1));
        lemma_written(
            w,
            p,
            addresses,
            shapes,
            background,
            total,
            i,
            k + 1,
            notices,
            writes.push(now[k]),
        );
    } else {
        lemma_template_prefix(p, addresses, shapes, i + 1, total);
        let all = template_writes(p, addresses, shapes, total);
        let next = template_writes(p, addresses, shapes, i + 1);
        assert(next =~= before + now);
        assert(writes.is_prefix_of(next)) by {
            assert(writes =~= next.take(writes.len() as int));
        }
        assert(writes =~= all.take(writes.len() as int)) by {
            assert(next =~= all.take(next.len() as int));
        }
    }
}

/// The number of layers and the table that are in effect, where an import comes to
/// them: by the address that is known and holds no other number than was entered, or
/// by the group of the livery.
pub open spec fn template_in_effect(w: World, job: ImportJob) -> Option<(u32, u64)> {
    match job.count_address {
        Some(address) => {
            let count = live_count(w, job, address);
            let table = match job.table_address {
                Some(table) => table,
                None => w.u64_at(plus(address, FH6_DISCOVERED_TABLE_POINTER_DELTA)),
            };
            match job.expected_count {
                Some(expected) => if count == expected {
                    Some((count, table))
                } else {
                    None
                },
                None => Some((count, table)),
            }
        },
        None => match livery_search(w, job.profile).livery {
            Some(livery) => {
                let group = w.u64_at(plus(livery, job.profile.livery_group_offset));
                if group == 0 {
                    None
                } else {
                    Some(
                        (
                            w.u32_at(plus(group, job.profile.livery_count_offset)),
                            w.u64_at(plus(group, job.profile.layer_table_offset)),
                        ),
                    )
                }
            },
            None => None,
        },
    }
}

/// Whether an import that came to `r` kept to the template in effect.
pub open spec fn keeps_to_template(w: World, job: ImportJob, r: ImportOutcome) -> bool {
    template_in_effect(w, job) matches Some((count, table)) && writes_layers(
        w,
        job,
        r,
        count,
        table,
    )
}

/// Whether an import that came to `r` kept to the template with `count` layers in
/// the table at `table`.
pub open spec fn writes_layers(
    w: World,
    job: ImportJob,
    r: ImportOutcome,
    count: u32,
    table: u64,
) -> bool {
    &&& count >= 100
    &&& table != 0
    &&& writes_template(
        r.writes,
        r.result is Ok,
        job.profile,
        pointers((w.read)(table, (count * 8) as u64)),
        placed(job.geometry, count, job.edge_mask),
        count as int,
    )
}

/// Whether an import either wrote nothing and says why, or kept to the template in
/// effect; it writes where that has at least a hundred layers and a table.
pub open spec fn sound_import(w: World, job: ImportJob, r: ImportOutcome) -> bool {
    match r.result {
        Ok(()) => keeps_to_template(w, job, r),
        Err(ImportError::WriteFailed) => keeps_to_template(w, job, r),
        Err(_) => r.writes == Seq::<FieldWrite>::empty() && !(template_in_effect(w, job) matches Some(
            (count, table),
        ) && count >= 100 && table != 0),
    }
}

proof fn lemma_with_table(
    w: World,
    job: ImportJob,
    count: u32,
    table: u64,
    notices: Seq<Notice>,
)
    requires
        template_in_effect(w, job) == Some((count, table)),
    ensures
        sound_import(w, job, with_table(w, job, count, table, notices)),
{
    reveal(with_table);
    if count >= 100 && table != 0 {
        let addresses = pointers((w.read)(table, (count * 8) as u64));
        let shapes = placed(job.geometry, count, job.edge_mask);
        assert(slot_writes(job.profile, addresses, shapes, 0).take(0) =~= Seq::<
            FieldWrite,
        >::empty());
        assert(template_writes(job.profile, addresses, shapes, 0) + slot_writes(
            job.profile,
            addresses,
            shapes,
            0,
        ).take(0) =~= Seq::<FieldWrite>::empty());
        lemma_written(
            w,
            job.profile,
            addresses,
            shapes,
            job.geometry.background,
            count as int,
            0,
            0,
            progress(notices.push(Notice::TableAt { address: table }), 0, count as int),
            Seq::empty(),
        );
        assert(writes_layers(w, job, with_table(w, job, count, table, notices), count, table));
    }
}

/// An import that succeeds has made every write of every slot of the template in
/// effect, which has at least a hundred layers, in the order of the slots, and no
/// other write. One that a failed write ends has made the first of these writes. Any
/// other has written nothing, and there was no such template.
pub proof fn law_import_writes_every_slot(w: World, job: ImportJob)
    ensures
        sound_import(w, job, imported(w, job)),
{
    reveal(with_count);
    reveal(with_live_count);
    reveal(with_group);
    reveal(with_livery);
    assert forall|count: u32, table: u64, notices: Seq<Notice>|
        template_in_effect(w, job) == Some((count, table)) implies sound_import(
        w,
        job,
        #[trigger] with_table(w, job, count, table, notices),
    ) by {
        lemma_with_table(w, job, count, table, notices);
    }
}

/// An import with a known address that holds another number of layers than the user
/// entered is rejected and writes nothing.
pub proof fn law_other_count_is_rejected(w: World, job: ImportJob, address: u64, expected: u32)
    requires
        job.count_address == Some(address),
        job.expected_count == Some(expected),
        live_count(w, job, address) != expected,
    ensures
        imported(w, job).result == Err::<(), ImportError>(ImportError::CountMismatch),
        imported(w, job).writes == Seq::<FieldWrite>::empty(),
{
    reveal(with_live_count);
}

/// What follows `before` at the start of `all` stands there in `all`.
proof fn lemma_middle(before: Seq<FieldWrite>, now: Seq<FieldWrite>, all: Seq<FieldWrite>)
    requires
        (before + now).is_prefix_of(all),
    ensures
        before.len() + now.len() <= all.len(),
        all.subrange(before.len() as int, (before.len() + now.len()) as int) == now,
{
    let next = before + now;
    assert(next =~= all.take(next.len() as int));
    assert forall|j: int| 0 <= j < now.len() implies now[j] == all[before.len() + j] by {
        assert(next[before.len() + j] == now[j]);
        assert(all.take(next.len() as int)[before.len() + j] == all[before.len() + j]);
    }
    assert(all.subrange(before.len() as int, (before.len() + now.len()) as int) =~= now);
}

/// The writes of a slot stand together among the writes of the whole template, and
/// a slot behind the shapes is hidden: it gets a mask without size or colour.
pub proof fn law_slots_behind_the_shapes_are_hidden(
    p: GameProfile,
    addresses: Seq<u64>,
    shapes: Seq<Shape>,
    total: int,
    i: int,
)
    requires
        0 <= i < total,
        i < addresses.len(),
    ensures
        ({
            let s = if i < shapes.len() {
                shapes[i]
            } else {
                hidden()
            };
            let from = template_writes(p, addresses, shapes, i).len() as int;
            let n = shape_writes(p, addresses[i], s).len();
            let all = template_writes(p, addresses, shapes, total);
            &&& from + n <= all.len()
            &&& all.subrange(from, from + n) == shape_writes(p, addresses[i], s)
        }),
{
    lemma_template_prefix(p, addresses, shapes, i + 1, total);
    lemma_middle(
        template_writes(p, addresses, shapes, i),
        slot_writes(p, addresses, shapes, i),
        template_writes(p, addresses, shapes, total),
    );
}

} // verus!
