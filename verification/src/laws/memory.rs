//! How the memory of a game is read, and which parts of it are looked at.

use vstd::prelude::*;

use crate::device::World;
use crate::winmem::{
    little_endian, one_map, private_writable, readable_writable, user_pointer, walked,
    MemoryInfo, Region,
};

verus! {

/// The pointers of a program lie above its first 64 kilobytes and in the lower 128
/// terabytes.
pub proof fn law_pointers_lie_in_the_lower_half(v: u64)
    ensures
        user_pointer(v) <==> 0x10000 <= v <= 0x7FFF_FFFF_FFFF,
{
}

/// Whether bit `n` of the protection of memory is set.
pub open spec fn flagged(protect: u32, n: u32) -> bool
    recommends
        n < 32,
{
    (protect / (if n == 0 {
        1
    } else if n == 2 {
        4
    } else if n == 3 {
        8
    } else if n == 6 {
        0x40
    } else if n == 7 {
        0x80
    } else {
        0x100
    })) % 2 == 1
}

/// Memory can be read and written where storage backs it, it is open to access, it has
/// no guard, and it is for writing: plain or copied on write, with code or without.
pub proof fn law_usable_memory_by_its_flags(address: u64, info: MemoryInfo)
    ensures
        readable_writable(info) <==> {
            &&& info.state == 0x1000
            &&& !flagged(info.protect, 0)
            &&& !flagged(info.protect, 8)
            &&& (flagged(info.protect, 2) || flagged(info.protect, 3) || flagged(info.protect, 6)
                || flagged(info.protect, 7))
        },
        private_writable(address, Some(info)) <==> readable_writable(info) && info.kind == 0x20000
            && 0x10000 <= address <= 0x7FFF_FFFF_FFFF,
        !private_writable(address, None),
{
    let p = info.protect;
    assert((p & 0x100 == 0) <==> ((p / 0x100) % 2 != 1)) by (bit_vector);
    assert((p & 1 == 0) <==> ((p / 1) % 2 != 1)) by (bit_vector);
    assert((p & 0xCC != 0) <==> ((p / 4) % 2 == 1 || (p / 8) % 2 == 1 || (p / 0x40) % 2 == 1 || (p
        / 0x80) % 2 == 1)) by (bit_vector);
}

/// A number of two, four or eight bytes stands in memory with its lowest byte first; it
/// is zero where not all of its bytes can be read.
pub proof fn law_numbers_have_their_lowest_byte_first(w: World, address: u64)
    ensures
        ({
            let b = (w.read)(address, 2);
            w.u16_at(address) == (if b.len() == 2 {
                b[0] + 0x100 * b[1]
            } else {
                0
            })
        }),
        ({
            let b = (w.read)(address, 4);
            w.u32_at(address) == (if b.len() == 4 {
                b[0] + 0x100 * b[1] + 0x1_0000 * b[2] + 0x100_0000 * b[3]
            } else {
                0
            })
        }),
        ({
            let b = (w.read)(address, 8);
            w.u64_at(address) == (if b.len() == 8 {
                b[0] + 0x100 * b[1] + 0x1_0000 * b[2] + 0x100_0000 * b[3] + 0x1_0000_0000 * b[4]
                    + 0x100_0000_0000 * b[5] + 0x1_0000_0000_0000 * b[6] + 0x100_0000_0000_0000
                    * b[7]
            } else {
                0
            })
        }),
{
    lemma_bytes((w.read)(address, 2));
    lemma_bytes((w.read)(address, 4));
    lemma_bytes((w.read)(address, 8));
}

proof fn lemma_bytes(b: Seq<u8>)
    ensures
        b.len() == 2 ==> little_endian(b) == b[0] + 0x100 * b[1],
        b.len() == 4 ==> little_endian(b) == b[0] + 0x100 * b[1] + 0x1_0000 * b[2] + 0x100_0000
            * b[3],
        b.len() == 8 ==> little_endian(b) == b[0] + 0x100 * b[1] + 0x1_0000 * b[2] + 0x100_0000
            * b[3] + 0x1_0000_0000 * b[4] + 0x100_0000_0000 * b[5] + 0x1_0000_0000_0000 * b[6]
            + 0x100_0000_0000_0000 * b[7],
{
    reveal_with_fuel(little_endian, 9);
    let c1 = b.drop_first();
    let c2 = c1.drop_first();
    let c3 = c2.drop_first();
    let c4 = c3.drop_first();
    let c5 = c4.drop_first();
    let c6 = c5.drop_first();
    let c7 = c6.drop_first();
    if b.len() == 2 || b.len() == 4 || b.len() == 8 {
        assert(c1[0] == b[1]);
    }
    if b.len() == 4 || b.len() == 8 {
        assert(c2[0] == b[2]);
        assert(c3[0] == b[3]);
    }
    if b.len() == 8 {
        assert(c4[0] == b[4]);
        assert(c5[0] == b[5]);
        assert(c6[0] == b[6]);
        assert(c7[0] == b[7]);
    }
}

/// Whether the system describes every address of a program.
pub open spec fn all_told(info: spec_fn(u64) -> Option<MemoryInfo>) -> bool {
    forall|a: u64|
        0x10000 <= a < 0x7FFF_FFFF_FFFF ==> (#[trigger] info(a) matches Some(i) && i.size > 0)
}

proof fn lemma_walk_reaches(
    info: spec_fn(u64) -> Option<MemoryInfo>,
    private_only: bool,
    address: int,
    out: Seq<Region>,
    a: u64,
    k: int,
)
    requires
        one_map(info),
        all_told(info),
        0x10000 <= address,
        0x10000 <= a < 0x7FFF_FFFF_FFFF,
    ensures
        0 <= k < out.len() ==> walked(info, private_only, address, out).contains(out[k]),
        address <= a ==> (info(a) matches Some(i) ==> readable_writable(i) && (private_only
            ==> i.kind == 0x20000) ==> walked(info, private_only, address, out).contains(
            Region { base: i.base, size: i.size },
        )),
    decreases
        (if address < 0x7FFF_FFFF_FFFF {
            0x7FFF_FFFF_FFFF - address
        } else {
            0
        }),
{
    if address < 0x7FFF_FFFF_FFFF {
        let at = address as u64;
        assert(info(at) is Some);
        let i = info(at).unwrap();
        let r = Region { base: i.base, size: i.size };
        let usable = readable_writable(i) && (private_only ==> i.kind == 0x20000);
        let after = if usable {
            out.push(r)
        } else {
            out
        };
        assert(i.base <= at < i.base + i.size);
        let j = info(a).unwrap();
        assert(info(a) == Some(j));
        lemma_walk_reaches(info, private_only, i.base + i.size, after, a, k);
        if address <= a < i.base + i.size {
            assert(j == i);
            if usable {
                lemma_walk_reaches(
                    info,
                    private_only,
                    i.base + i.size,
                    after,
                    a,
                    out.len() as int,
                );
                assert(after[out.len() as int] == r);
            }
        }
        if 0 <= k < out.len() {
            assert(after[k] == out[k]);
        }
    } else if 0 <= k < out.len() {
        assert(out.contains(out[k]));
    }
}

/// A walk misses no memory. Where the system describes every address, as one memory map,
/// each region that can be read and written is listed, and of a walk over private memory
/// each such region that is private.
pub proof fn law_walk_misses_no_memory(
    info: spec_fn(u64) -> Option<MemoryInfo>,
    private_only: bool,
    a: u64,
)
    requires
        one_map(info),
        all_told(info),
        0x10000 <= a < 0x7FFF_FFFF_FFFF,
    ensures
        info(a) matches Some(i) ==> readable_writable(i) && (private_only ==> i.kind == 0x20000)
            ==> walked(info, private_only, 0x10000, Seq::empty()).contains(
            Region { base: i.base, size: i.size },
        ),
{
    lemma_walk_reaches(info, private_only, 0x10000, Seq::empty(), a, 0);
}

} // verus!
