//! What a run asks of the game process and what it is answered.
//!
//! The library reaches no process itself. A run (the locator, the importer, the
//! diagnosis) is a value that names its next request and takes the answer; the
//! program performs the request. What a run does is stated over a `World`: the
//! answers that requests get.

use vstd::prelude::*;

use crate::winmem::{number_read, private_writable, MemoryInfo, Region};

verus! {

/// A stretch of memory to read.
#[derive(Clone, Copy, Debug, PartialEq, Eq, Structural)]
pub struct Span {
    pub address: u64,
    pub size: u64,
}

/// A number on its way into a layer.
#[derive(Clone, Copy, Debug, PartialEq, Eq, Structural)]
pub enum Coordinate {
    /// This whole number.
    Whole(i64),
    /// The double-precision number with these bits.
    Bits(u64),
    /// Three halves of this whole number, computed in double precision and then
    /// without its fraction.
    ThreeHalves(i64),
}

/// A colour with its opacity.
#[derive(Clone, Copy, Debug, PartialEq, Eq, Structural)]
pub struct Color {
    pub r: u8,
    pub g: u8,
    pub b: u8,
    pub a: u8,
}

/// What is written into one field of a layer.
#[derive(Clone, Copy, Debug, PartialEq, Eq, Structural)]
pub enum Field {
    /// The centre: `x` and the negative of `y`, in single precision.
    Position { x: Coordinate, y: Coordinate },
    /// Width and height, each divided by `divisor`, in single precision.
    Scale { w: Coordinate, h: Coordinate, divisor: u32 },
    /// 360 less these degrees, in single precision.
    Rotation(Coordinate),
    /// The four channels.
    Color(Color),
    /// The kind of shape.
    ShapeId(u8),
    /// Whether the layer is a mask.
    Mask(u8),
}

/// A write of one field to an address.
#[derive(Clone, Copy, Debug, PartialEq, Eq, Structural)]
pub struct FieldWrite {
    pub address: u64,
    pub field: Field,
}

/// A request.
#[derive(Debug)]
pub enum Request {
    /// The address of the main module.
    Base,
    /// The bytes of each stretch; a read can give fewer than it asks for.
    Read(Vec<Span>),
    /// What the system says of each address.
    Query(Vec<u64>),
    /// The private regions of memory that can be read and written.
    Regions,
    /// The seconds since the run started, before this step of this attempt.
    Clock { attempt: u64, step: u64 },
    /// A write.
    Write(FieldWrite),
}

/// An answer.
#[derive(Debug)]
pub enum Reply {
    Base(Option<u64>),
    Blocks(Vec<Vec<u8>>),
    Infos(Vec<Option<MemoryInfo>>),
    Regions(Vec<Region>),
    Seconds(u64),
    Written(bool),
}

/// A request, its lists as sequences.
pub enum RequestView {
    Base,
    Read(Seq<Span>),
    Query(Seq<u64>),
    Regions,
    Clock { attempt: u64, step: u64 },
    Write(FieldWrite),
}

impl View for Request {
    type V = RequestView;

    open spec fn view(&self) -> RequestView {
        match self {
            Request::Base => RequestView::Base,
            Request::Read(spans) => RequestView::Read(spans@),
            Request::Query(addresses) => RequestView::Query(addresses@),
            Request::Regions => RequestView::Regions,
            Request::Clock { attempt, step } => RequestView::Clock { attempt: *attempt, step: *step },
            Request::Write(w) => RequestView::Write(*w),
        }
    }
}

/// An optional request.
pub open spec fn asked(r: Option<Request>) -> Option<RequestView> {
    match r {
        Some(request) => Some(request@),
        None => None,
    }
}

/// Whether an answer is of the kind that the request asks for.
pub open spec fn fits(request: RequestView, reply: Reply) -> bool {
    match (request, reply) {
        (RequestView::Base, Reply::Base(_)) => true,
        (RequestView::Read(spans), Reply::Blocks(blocks)) => blocks@.len() == spans.len(),
        (RequestView::Query(addresses), Reply::Infos(infos)) => infos@.len() == addresses.len(),
        (RequestView::Regions, Reply::Regions(regions)) => forall|i: int|
            0 <= i < regions@.len() ==> (#[trigger] regions@[i]).base + regions@[i].size
                <= u64::MAX,
        (RequestView::Clock { attempt, step }, Reply::Seconds(_)) => true,
        (RequestView::Write(_), Reply::Written(_)) => true,
        _ => false,
    }
}

/// The answers that requests get.
pub struct World {
    /// The address of the main module, where it can be had.
    pub base: Option<u64>,
    /// The bytes that a read of an address and a size gives.
    pub read: spec_fn(u64, u64) -> Seq<u8>,
    /// What the system says of an address.
    pub info: spec_fn(u64) -> Option<MemoryInfo>,
    /// The regions of memory.
    pub regions: Seq<Region>,
    /// The seconds since the start, before a step of an attempt.
    pub seconds: spec_fn(u64, u64) -> u64,
    /// Whether a write succeeds.
    pub accepts: spec_fn(FieldWrite) -> bool,
}

impl World {
    /// The eight-byte number at an address; zero where it cannot be read.
    pub open spec fn u64_at(self, address: u64) -> u64 {
        number_read((self.read)(address, 8), 8) as u64
    }

    /// The four-byte number at an address; zero where it cannot be read.
    pub open spec fn u32_at(self, address: u64) -> u32 {
        number_read((self.read)(address, 4), 4) as u32
    }

    /// The two-byte number at an address; zero where it cannot be read.
    pub open spec fn u16_at(self, address: u64) -> u16 {
        number_read((self.read)(address, 2), 2) as u16
    }

    /// Whether an address lies in private memory that can be read and written.
    pub open spec fn writable(self, address: u64) -> bool {
        private_writable(address, (self.info)(address))
    }
}

/// Whether `reply` is the answer that `request` gets in the world `w`.
pub open spec fn answered(w: World, request: RequestView, reply: Reply) -> bool {
    match (request, reply) {
        (RequestView::Base, Reply::Base(base)) => base == w.base,
        (RequestView::Read(spans), Reply::Blocks(blocks)) => {
            &&& blocks@.len() == spans.len()
            &&& forall|i: int|
                0 <= i < spans.len() ==> (#[trigger] blocks@[i])@ == (w.read)(
                    spans[i].address,
                    spans[i].size,
                )
        },
        (RequestView::Query(addresses), Reply::Infos(infos)) => {
            &&& infos@.len() == addresses.len()
            &&& forall|i: int|
                0 <= i < addresses.len() ==> #[trigger] infos@[i] == (w.info)(addresses[i])
        },
        (RequestView::Regions, Reply::Regions(regions)) => regions@ == w.regions,
        (RequestView::Clock { attempt, step }, Reply::Seconds(seconds)) => seconds == (w.seconds)(
            attempt,
            step,
        ),
        (RequestView::Write(write), Reply::Written(ok)) => ok == (w.accepts)(write),
        _ => false,
    }
}

/// A sum of an address and an offset, as the processor computes it.
pub open spec fn plus(address: u64, offset: u64) -> u64 {
    ((address + offset) % 0x1_0000_0000_0000_0000) as u64
}

/// Adds an offset to an address.
pub fn offset_by(address: u64, offset: u64) -> (r: u64)
    ensures
        r == plus(address, offset),
{
    address.wrapping_add(offset)
}

/// A request for one stretch of memory.
pub fn read_one(address: u64, size: u64) -> (r: Request)
    ensures
        r@ == RequestView::Read(seq![Span { address, size }]),
{
    let v = vec![Span { address, size }];
    assert(v@ =~= seq![Span { address, size }]);
    Request::Read(v)
}

/// The request that `read_one` makes.
pub open spec fn one_read(address: u64, size: u64) -> RequestView {
    RequestView::Read(seq![Span { address, size }])
}

/// Whether the blocks are what the reads of a request give in the world `w`.
pub open spec fn read_from(w: World, request: RequestView, blocks: Seq<Vec<u8>>) -> bool {
    match request {
        RequestView::Read(spans) => {
            &&& blocks.len() == spans.len()
            &&& forall|i: int|
                0 <= i < spans.len() ==> (#[trigger] blocks[i])@ == (w.read)(
                    spans[i].address,
                    spans[i].size,
                )
        },
        _ => false,
    }
}

/// Whether `infos` are what the system says in the world `w` of the addresses of a
/// request.
pub open spec fn info_from(w: World, request: RequestView, infos: Seq<Option<MemoryInfo>>) -> bool {
    match request {
        RequestView::Query(addresses) => {
            &&& infos.len() == addresses.len()
            &&& forall|i: int|
                0 <= i < addresses.len() ==> #[trigger] infos[i] == (w.info)(addresses[i])
        },
        _ => false,
    }
}

} // verus!
