//! The memory of another process: what is asked of it, how the answers are read,
//! and which parts of it hold data of the game.

use vstd::prelude::*;

verus! {

/// The lowest address that a pointer of a program can hold.
pub const LOWEST_ADDRESS: u64 = 0x10000;

/// The highest address that a pointer of a program can hold.
pub const HIGHEST_ADDRESS: u64 = 0x7FFF_FFFF_FFFF;

/// The state of memory that is backed by storage (`MEM_COMMIT`).
pub const COMMITTED: u32 = 0x1000;

/// The type of memory that belongs to one process (`MEM_PRIVATE`).
pub const PRIVATE: u32 = 0x20000;

/// The protection flag of guard pages (`PAGE_GUARD`).
pub const GUARD: u32 = 0x100;

/// The protection flag of pages without access (`PAGE_NOACCESS`).
pub const NO_ACCESS: u32 = 0x1;

/// The protection flags of pages that can be read and written.
pub const READABLE_WRITABLE_MASK: u32 = 0xCC;

/// Whether a value lies where a pointer of a program points.
pub open spec fn user_pointer(v: u64) -> bool {
    LOWEST_ADDRESS <= v <= HIGHEST_ADDRESS
}

/// Decides `user_pointer`.
pub fn is_user_pointer(v: u64) -> (r: bool)
    ensures
        r == user_pointer(v),
{
    LOWEST_ADDRESS <= v && v <= HIGHEST_ADDRESS
}

/// Whether the bytes `needle` stand in `hay` at position `i`.
pub open spec fn occurs_at(hay: Seq<u8>, needle: Seq<u8>, i: int) -> bool {
    0 <= i && i + needle.len() <= hay.len() && hay.subrange(i, i + needle.len()) == needle
}

/// Where `needle` first stands in `hay` from position `from` on. Nothing is found
/// where the needle is empty.
pub open spec fn found_from(hay: Seq<u8>, needle: Seq<u8>, from: int) -> Option<int>
    decreases hay.len() - from,
{
    if needle.len() == 0 || from + needle.len() > hay.len() {
        None
    } else if occurs_at(hay, needle, from) {
        Some(from)
    } else {
        found_from(hay, needle, from + 1)
    }
}

/// What `found_from` finds is an occurrence, and there is none before it; where it
/// finds none of a needle that is not empty, there is none.
pub proof fn lemma_found_from(hay: Seq<u8>, needle: Seq<u8>, from: int)
    requires
        needle.len() > 0,
        0 <= from,
    ensures
        match found_from(hay, needle, from) {
            Some(k) => from <= k && occurs_at(hay, needle, k) && forall|j: int|
                from <= j < k ==> !#[trigger] occurs_at(hay, needle, j),
            None => forall|j: int| from <= j ==> !#[trigger] occurs_at(hay, needle, j),
        },
    decreases hay.len() - from,
{
    if from + needle.len() <= hay.len() && !occurs_at(hay, needle, from) {
        lemma_found_from(hay, needle, from + 1);
    }
}

/// Whether the bytes `needle` stand in `hay` at position `i`.
fn matches_at(hay: &[u8], needle: &[u8], i: usize) -> (r: bool)
    requires
        i + needle.len() <= hay.len(),
    ensures
        r == occurs_at(hay@, needle@, i as int),
{
    for k in 0..needle.len()
        invariant
            i + needle.len() <= hay.len(),
            forall|j: int| 0 <= j < k ==> hay@[i + j] == needle@[j],
    {
        if hay[i + k] != needle[k] {
            assert(hay@.subrange(i as int, i + needle@.len())[k as int] != needle@[k as int]);
            return false;
        }
    }
    assert(hay@.subrange(i as int, i + needle@.len()) =~= needle@);
    true
}

/// Finds `needle` in `hay` from position `from` on.
pub fn find_from(hay: &[u8], needle: &[u8], from: usize) -> (r: Option<usize>)
    ensures
        match r {
            Some(k) => found_from(hay@, needle@, from as int) == Some(k as int) && from <= k && k
                + needle@.len() <= hay@.len(),
            None => found_from(hay@, needle@, from as int) is None,
        },
{
    if needle.len() == 0 || hay.len() < needle.len() {
        return None;
    }
    let last: usize = hay.len() - needle.len();
    let mut i: usize = from;
    while i <= last
        invariant
            needle.len() > 0,
            last + needle.len() == hay.len(),
            from <= i,
            found_from(hay@, needle@, from as int) == found_from(hay@, needle@, i as int),
        decreases last + 1 - i,
    {
        if matches_at(hay, needle, i) {
            return Some(i);
        }
        i = i + 1;
    }
    None
}

/// Finds `needle` in `hay`: the position of its first occurrence. An empty needle
/// is not found.
pub fn find_sub(hay: &[u8], needle: &[u8]) -> (r: Option<usize>)
    ensures
        match r {
            Some(k) => needle@.len() > 0 && occurs_at(hay@, needle@, k as int) && forall|j: int|
                0 <= j < k ==> !#[trigger] occurs_at(hay@, needle@, j),
            None => needle@.len() == 0 || forall|j: int| !#[trigger] occurs_at(hay@, needle@, j),
        },
        r == (match found_from(hay@, needle@, 0) {
            Some(k) => Some(k as usize),
            None => None,
        }),
{
    proof {
        if needle@.len() > 0 {
            lemma_found_from(hay@, needle@, 0);
        }
    }
    find_from(hay, needle, 0)
}

/// The number that the bytes `b` store, the lowest byte first.
pub open spec fn little_endian(b: Seq<u8>) -> nat
    decreases b.len(),
{
    if b.len() == 0 {
        0
    } else {
        b[0] as nat + 256 * little_endian(b.drop_first())
    }
}

/// The number of `size` bytes that a read gave; zero where it gave another number
/// of bytes.
pub open spec fn number_read(b: Seq<u8>, size: nat) -> nat {
    if b.len() == size {
        little_endian(b)
    } else {
        0
    }
}

/// The two-byte number that a read gave.
pub fn read_u16(b: &Vec<u8>) -> (r: u16)
    ensures
        r == number_read(b@, 2),
{
    if b.len() == 2 {
        proof {
            reveal_with_fuel(little_endian, 3);
        }
        b[0] as u16 + 256 * (b[1] as u16)
    } else {
        0
    }
}

/// The four-byte number that stands in `b` from position `from` on.
pub fn u32_at(b: &Vec<u8>, from: usize) -> (r: u32)
    requires
        from + 4 <= b.len(),
    ensures
        r == little_endian(b@.subrange(from as int, from + 4)),
{
    proof {
        reveal_with_fuel(little_endian, 5);
        let s = b@.subrange(from as int, from + 4);
        assert(s.drop_first().drop_first().drop_first()[0] == s[3]);
        assert(s.drop_first().drop_first()[0] == s[2]);
        assert(s.drop_first()[0] == s[1]);
    }
    b[from] as u32 + 256 * (b[from + 1] as u32) + 65536 * (b[from + 2] as u32) + 16777216 * (b[from
        + 3] as u32)
}

/// The four-byte number that a read gave.
pub fn read_u32(b: &Vec<u8>) -> (r: u32)
    ensures
        r == number_read(b@, 4),
{
    if b.len() == 4 {
        assert(b@.subrange(0, 4) =~= b@);
        u32_at(b, 0)
    } else {
        0
    }
}

/// The number of a sequence is that of its low part and, above it, its high part.
proof fn lemma_little_endian_split(b: Seq<u8>)
    requires
        b.len() == 8,
    ensures
        little_endian(b) == little_endian(b.subrange(0, 4)) + 0x1_0000_0000 * little_endian(
            b.subrange(4, 8),
        ),
{
    reveal_with_fuel(little_endian, 9);
    let low = b.subrange(0, 4);
    let high = b.subrange(4, 8);
    assert(low.drop_first()[0] == b[1]);
    assert(low.drop_first().drop_first()[0] == b[2]);
    assert(low.drop_first().drop_first().drop_first()[0] == b[3]);
    assert(high.drop_first()[0] == b[5]);
    assert(high.drop_first().drop_first()[0] == b[6]);
    assert(high.drop_first().drop_first().drop_first()[0] == b[7]);
    assert(b.drop_first().drop_first().drop_first().drop_first() =~= high);
    assert(b.drop_first()[0] == b[1]);
    assert(b.drop_first().drop_first()[0] == b[2]);
    assert(b.drop_first().drop_first().drop_first()[0] == b[3]);
}

/// The eight-byte number that stands in `b` from position `from` on.
pub fn u64_at(b: &Vec<u8>, from: usize) -> (r: u64)
    requires
        from + 8 <= b.len(),
    ensures
        r == little_endian(b@.subrange(from as int, from + 8)),
{
    proof {
        let s = b@.subrange(from as int, from + 8);
        lemma_little_endian_split(s);
        assert(s.subrange(0, 4) =~= b@.subrange(from as int, from + 4));
        assert(s.subrange(4, 8) =~= b@.subrange(from + 4, from + 8));
    }
    u32_at(b, from) as u64 + 0x1_0000_0000 * (u32_at(b, from + 4) as u64)
}

/// The eight-byte number that a read gave.
pub fn read_u64(b: &Vec<u8>) -> (r: u64)
    ensures
        r == number_read(b@, 8),
{
    if b.len() == 8 {
        assert(b@.subrange(0, 8) =~= b@);
        u64_at(b, 0)
    } else {
        0
    }
}

/// What the system says of the memory around an address.
#[derive(Clone, Copy, Debug, PartialEq, Eq, Structural)]
pub struct MemoryInfo {
    pub base: u64,
    pub size: u64,
    pub state: u32,
    pub protect: u32,
    pub kind: u32,
}

/// A stretch of memory.
#[derive(Clone, Copy, Debug, PartialEq, Eq, Structural)]
pub struct Region {
    pub base: u64,
    pub size: u64,
}

/// Memory that can be read and written: backed by storage, no guard page, and not
/// closed to access.
pub open spec fn readable_writable(info: MemoryInfo) -> bool {
    &&& info.state == COMMITTED
    &&& info.protect & GUARD == 0
    &&& info.protect & NO_ACCESS == 0
    &&& info.protect & READABLE_WRITABLE_MASK != 0
}

/// Decides `readable_writable`.
fn is_readable_writable(info: &MemoryInfo) -> (r: bool)
    ensures
        r == readable_writable(*info),
{
    info.state == COMMITTED && info.protect & GUARD == 0 && info.protect & NO_ACCESS == 0
        && info.protect & READABLE_WRITABLE_MASK != 0
}

/// Whether an address lies in private memory of the process that can be read and
/// written; `info` is what the system says of the address, where it says anything.
pub open spec fn private_writable(address: u64, info: Option<MemoryInfo>) -> bool {
    &&& user_pointer(address)
    &&& info matches Some(i) && readable_writable(i) && i.kind == PRIVATE
}

/// Decides `private_writable`.
pub fn is_private_writable(address: u64, info: &Option<MemoryInfo>) -> (r: bool)
    ensures
        r == private_writable(address, *info),
{
    match info {
        Some(i) => is_user_pointer(address) && is_readable_writable(i) && i.kind == PRIVATE,
        None => false,
    }
}

/// Whether a walk over the memory keeps the region that `info` describes.
pub open spec fn kept(info: MemoryInfo, private_only: bool) -> bool {
    readable_writable(info) && (private_only ==> info.kind == PRIVATE)
}

/// The regions that a walk from `address` on keeps after those of `out`, where
/// `info` tells what the system says of each address.
pub open spec fn walked(
    info: spec_fn(u64) -> Option<MemoryInfo>,
    private_only: bool,
    address: int,
    out: Seq<Region>,
) -> Seq<Region>
    decreases
        (if address < HIGHEST_ADDRESS {
            HIGHEST_ADDRESS - address
        } else {
            0
        }),
{
    if address >= HIGHEST_ADDRESS {
        out
    } else {
        match info(address as u64) {
            None => walked(info, private_only, address + 0x10000, out),
            Some(i) => if i.size == 0 {
                walked(info, private_only, address + 0x1000, out)
            } else {
                let after = if kept(i, private_only) {
                    out.push(Region { base: i.base, size: i.size })
                } else {
                    out
                };
                if i.base + i.size <= address {
                    after
                } else {
                    walked(info, private_only, i.base + i.size, after)
                }
            },
        }
    }
}

/// A walk over the memory of a process, one address at a time.
pub struct RegionWalk {
    private_only: bool,
    address: u64,
    out: Vec<Region>,
    done: bool,
}

impl RegionWalk {
    /// The address that the walk asks about.
    pub closed spec fn asks(self) -> Option<u64> {
        if self.done {
            None
        } else {
            Some(self.address)
        }
    }

    /// What the walk keeps in the end, where `info` tells what the system says of
    /// each address from now on.
    pub closed spec fn expects(self, info: spec_fn(u64) -> Option<MemoryInfo>) -> Seq<Region> {
        if self.done {
            self.out@
        } else {
            walked(info, self.private_only, self.address as int, self.out@)
        }
    }

    /// How far the walk still has to go.
    pub closed spec fn measure(self) -> nat {
        if self.done || self.address >= HIGHEST_ADDRESS {
            0
        } else {
            (HIGHEST_ADDRESS - self.address) as nat
        }
    }

    /// Whether the walk has an address to ask about or has ended.
    pub closed spec fn wf(self) -> bool {
        !self.done ==> self.address < HIGHEST_ADDRESS
    }

    /// A walk over all of the memory.
    pub fn new(private_only: bool) -> (r: RegionWalk)
        ensures
            r.wf(),
            r.asks() == Some(LOWEST_ADDRESS),
            forall|info: spec_fn(u64) -> Option<MemoryInfo>| #[trigger]
                r.expects(info) == walked(
                    info,
                    private_only,
                    LOWEST_ADDRESS as int,
                    Seq::empty(),
                ),
    {
        RegionWalk { private_only, address: LOWEST_ADDRESS, out: Vec::new(), done: false }
    }

    /// The address that the walk asks about; none when it has ended.
    pub fn query(&self) -> (r: Option<u64>)
        ensures
            r == self.asks(),
    {
        if self.done {
            None
        } else {
            Some(self.address)
        }
    }

    /// Takes what the system says of the address.
    pub fn answer(&mut self, reply: Option<MemoryInfo>)
        requires
            old(self).wf(),
            old(self).asks() is Some,
            reply matches Some(i) ==> i.base + i.size <= u64::MAX,
        ensures
            final(self).wf(),
            final(self).measure() < old(self).measure(),
            forall|info: spec_fn(u64) -> Option<MemoryInfo>|
                info(old(self).asks().unwrap()) == reply ==> #[trigger] final(self).expects(info)
                    == old(self).expects(info),
    {
        proof {
            reveal_with_fuel(walked, 2);
        }
        match reply {
            None => {
                self.address = self.address + 0x10000;
            },
            Some(i) => {
                if i.size == 0 {
                    self.address = self.address + 0x1000;
                } else {
                    let keep = is_readable_writable(&i) && (!self.private_only || i.kind
                        == PRIVATE);
                    if keep {
                        self.out.push(Region { base: i.base, size: i.size });
                    }
                    let next: u64 = i.base + i.size;
                    if next <= self.address {
                        self.done = true;
                    } else {
                        self.address = next;
                    }
                }
            },
        }
        if self.address >= HIGHEST_ADDRESS {
            self.done = true;
        }
    }

    /// What the walk kept.
    pub fn regions(&self) -> (r: &Vec<Region>)
        requires
            self.asks() is None,
        ensures
            forall|info: spec_fn(u64) -> Option<MemoryInfo>| r@ == #[trigger] self.expects(info),
    {
        &self.out
    }
}

/// Whether the system describes the region `r`, at some address, as memory that a
/// walk keeps.
pub open spec fn described(
    info: spec_fn(u64) -> Option<MemoryInfo>,
    private_only: bool,
    r: Region,
) -> bool {
    exists|a: u64|
        (#[trigger] info(a)) matches Some(i) && i.base == r.base && i.size == r.size && kept(
            i,
            private_only,
        )
}

/// Whether the system describes every region of `out` so.
pub open spec fn all_described(
    info: spec_fn(u64) -> Option<MemoryInfo>,
    private_only: bool,
    out: Seq<Region>,
) -> bool {
    forall|i: int| 0 <= i < out.len() ==> described(info, private_only, #[trigger] out[i])
}

/// A walk keeps only regions that the system describes as memory that can be read
/// and written, and as private where that is asked.
pub proof fn law_walk_keeps_usable_memory(
    info: spec_fn(u64) -> Option<MemoryInfo>,
    private_only: bool,
    address: int,
    out: Seq<Region>,
)
    requires
        0 <= address,
        all_described(info, private_only, out),
    ensures
        all_described(info, private_only, walked(info, private_only, address, out)),
    decreases
        (if address < HIGHEST_ADDRESS {
            HIGHEST_ADDRESS - address
        } else {
            0
        }),
{
    if address < HIGHEST_ADDRESS {
        match info(address as u64) {
            None => {
                law_walk_keeps_usable_memory(info, private_only, address + 0x10000, out);
            },
            Some(i) => {
                if i.size == 0 {
                    law_walk_keeps_usable_memory(info, private_only, address + 0x1000, out);
                } else {
                    let r = Region { base: i.base, size: i.size };
                    let after = if kept(i, private_only) {
                        out.push(r)
                    } else {
                        out
                    };
                    if kept(i, private_only) {
                        let a = address as u64;
                        assert(info(a) == Some(i));
                        assert(described(info, private_only, r));
                    }
                    assert(all_described(info, private_only, after));
                    if i.base + i.size > address {
                        law_walk_keeps_usable_memory(info, private_only, i.base + i.size, after);
                    }
                }
            },
        }
    }
}

/// Whether what the system says of addresses is one memory map: an address lies in the
/// region that is said of it, the start of a region is said to lie in that region, and
/// two regions are the same or have nothing in common.
pub open spec fn one_map(info: spec_fn(u64) -> Option<MemoryInfo>) -> bool {
    &&& forall|a: u64|
        (#[trigger] info(a)) matches Some(i) ==> i.size > 0 ==> i.base <= a < i.base + i.size
            && info(i.base) == Some(i)
    &&& forall|a: u64, b: u64|
        #![trigger info(a), info(b)]
        info(a) matches Some(i) ==> info(b) matches Some(j) ==> i.size > 0 && j.size > 0 ==> i == j
            || i.base + i.size <= j.base || j.base + j.size <= i.base
}

/// Whether the system says of a region that it is private.
pub open spec fn said_private(info: spec_fn(u64) -> Option<MemoryInfo>, r: Region) -> bool {
    info(r.base) matches Some(i) && i.kind == PRIVATE
}

/// Whether regions are not empty, ascend, and have nothing in common.
pub open spec fn ascending(s: Seq<Region>) -> bool {
    &&& forall|i: int| 0 <= i < s.len() ==> (#[trigger] s[i]).size > 0
    &&& forall|i: int, j: int|
        0 <= i < j < s.len() ==> (#[trigger] s[i]).base + s[i].size <= (#[trigger] s[j]).base
}

proof fn lemma_private_walk(
    info: spec_fn(u64) -> Option<MemoryInfo>,
    address: int,
    all: Seq<Region>,
)
    requires
        0 <= address,
        one_map(info),
    ensures
        walked(info, true, address, all.filter(|r: Region| said_private(info, r))) == walked(
            info,
            false,
            address,
            all,
        ).filter(|r: Region| said_private(info, r)),
    decreases
        (if address < HIGHEST_ADDRESS {
            HIGHEST_ADDRESS - address
        } else {
            0
        }),
{
    let private = |r: Region| said_private(info, r);
    if address < HIGHEST_ADDRESS {
        match info(address as u64) {
            None => {
                lemma_private_walk(info, address + 0x10000, all);
            },
            Some(i) => {
                if i.size == 0 {
                    lemma_private_walk(info, address + 0x1000, all);
                } else {
                    let r = Region { base: i.base, size: i.size };
                    let after = if kept(i, false) {
                        all.push(r)
                    } else {
                        all
                    };
                    assert(info(address as u64) == Some(i));
                    assert(info(i.base) == Some(i));
                    if kept(i, false) {
                        reveal(Seq::filter);
                        assert(all.push(r).drop_last() =~= all);
                    }
                    assert(after.filter(private) =~= (if kept(i, true) {
                        all.filter(private).push(r)
                    } else {
                        all.filter(private)
                    }));
                    if i.base + i.size > address {
                        lemma_private_walk(info, i.base + i.size, after);
                    }
                }
            },
        }
    }
}

proof fn lemma_walk_ascends(
    info: spec_fn(u64) -> Option<MemoryInfo>,
    private_only: bool,
    address: int,
    out: Seq<Region>,
)
    requires
        0 <= address,
        one_map(info),
        ascending(out),
        all_described(info, private_only, out),
        forall|k: int| 0 <= k < out.len() ==> (#[trigger] out[k]).base + out[k].size <= address,
    ensures
        ascending(walked(info, private_only, address, out)),
    decreases
        (if address < HIGHEST_ADDRESS {
            HIGHEST_ADDRESS - address
        } else {
            0
        }),
{
    if address < HIGHEST_ADDRESS {
        let at = address as u64;
        match info(at) {
            None => {
                lemma_walk_ascends(info, private_only, address + 0x10000, out);
            },
            Some(i) => {
                if i.size == 0 {
                    lemma_walk_ascends(info, private_only, address + 0x1000, out);
                } else {
                    let r = Region { base: i.base, size: i.size };
                    let after = if kept(i, private_only) {
                        out.push(r)
                    } else {
                        out
                    };
                    assert forall|k: int| 0 <= k < out.len() implies (#[trigger] out[k]).base
                        + out[k].size <= i.base by {
                        assert(described(info, private_only, out[k]));
                        let b = choose|b: u64|
                            (#[trigger] info(b)) matches Some(j) && j.base == out[k].base && j.size
                                == out[k].size && kept(j, private_only);
                        let j = info(b).unwrap();
                        assert(info(at) == Some(i) && info(b) == Some(j));
                    }
                    if kept(i, private_only) {
                        assert(described(info, private_only, r)) by {
                            assert(info(at) == Some(i));
                        }
                    }
                    assert(all_described(info, private_only, after));
                    assert(ascending(after));
                    lemma_walk_ascends(info, private_only, i.base + i.size, after);
                }
            },
        }
    }
}

/// Where the system describes one memory map, a walk lists regions that are not empty,
/// ascend and have nothing in common, each of them memory that can be read and written,
/// and a walk over private memory lists just those of the full walk that are private.
pub proof fn law_walk_lists_the_map(info: spec_fn(u64) -> Option<MemoryInfo>, private_only: bool)
    requires
        one_map(info),
    ensures
        ascending(walked(info, private_only, LOWEST_ADDRESS as int, Seq::empty())),
        all_described(
            info,
            private_only,
            walked(info, private_only, LOWEST_ADDRESS as int, Seq::empty()),
        ),
        walked(info, true, LOWEST_ADDRESS as int, Seq::empty()) == walked(
            info,
            false,
            LOWEST_ADDRESS as int,
            Seq::empty(),
        ).filter(|r: Region| said_private(info, r)),
{
    let none = Seq::<Region>::empty();
    law_walk_keeps_usable_memory(info, private_only, LOWEST_ADDRESS as int, none);
    lemma_walk_ascends(info, private_only, LOWEST_ADDRESS as int, none);
    lemma_private_walk(info, LOWEST_ADDRESS as int, none);
    reveal(Seq::filter);
    assert(none.filter(|r: Region| said_private(info, r)) =~= none);
}

} // verus!
