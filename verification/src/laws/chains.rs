//! Where the chain of pointers to a livery starts and what it takes to hold.

use vstd::prelude::*;

use crate::chain::{after_signature, block, livery_search, searched, signature_in};
use crate::device::{plus, World};
use crate::diagnosis::{diagnosed, diagnosis, pointers_at};
use crate::laws::imports::behind;
use crate::notices::Notice;
use crate::profiles::{shared_layout, GameProfile};
use crate::winmem::{lemma_found_from, occurs_at};

verus! {

/// The eight bytes that mark the start of a chain.
pub open spec fn mark() -> Seq<u8> {
    seq![0x12u8, 0x47, 0x9B, 0x13, 0x29, 0xD9, 0xA2, 0xB1]
}

/// Where range `i` of the three that are searched starts: 0x06000000 behind the main
/// module, and 0x02000000 further on each time.
pub open spec fn range_start(base: u64, i: int) -> u64 {
    behind(base as int, 0x0600_0000 + 0x0200_0000 * i)
}

/// The bytes of range `i`.
pub open spec fn range_bytes(w: World, base: u64, i: int) -> Seq<u8> {
    (w.read)(range_start(base, i), 0x0200_0000)
}

/// Whether the mark first stands at position `rel` of range `i`.
pub open spec fn first_mark(w: World, base: u64, i: int, rel: int) -> bool {
    &&& 0 <= i < 3
    &&& occurs_at(range_bytes(w, base, i), mark(), rel)
    &&& forall|j: int| 0 <= j < rel ==> !#[trigger] occurs_at(range_bytes(w, base, i), mark(), j)
}

/// Whether range `i` has no mark.
pub open spec fn unmarked(w: World, base: u64, i: int) -> bool {
    forall|j: int| !#[trigger] occurs_at(range_bytes(w, base, i), mark(), j)
}

/// Where the mark stands in memory.
pub open spec fn mark_address(base: u64, i: int, rel: int) -> u64 {
    behind(base as int, 0x0600_0000 + 0x0200_0000 * i + rel)
}

/// Whether the eight bytes at `at` stand once more 0x70 behind it.
pub open spec fn mirrored(w: World, at: u64) -> bool {
    w.u64_at(at) == w.u64_at(behind(at as int, 0x70))
}

/// The pointer 0xB8 behind a mark.
pub open spec fn root_of(w: World, at: u64) -> u64 {
    w.u64_at(behind(at as int, 0xB8))
}

/// The pointer 0xA58 behind the root.
pub open spec fn editor_of(w: World, at: u64) -> u64 {
    w.u64_at(behind(root_of(w, at) as int, 0xA58))
}

/// The pointer 8 behind the editor.
pub open spec fn livery_of(w: World, at: u64) -> u64 {
    w.u64_at(behind(editor_of(w, at) as int, 8))
}

/// Whether the mark at `at` is mirrored and every pointer behind it leads somewhere.
pub open spec fn whole_chain(w: World, at: u64) -> bool {
    mirrored(w, at) && root_of(w, at) != 0 && editor_of(w, at) != 0 && livery_of(w, at) != 0
}

/// Whether a chain from the first mark of range `i` is whole.
pub open spec fn whole_in_range(w: World, base: u64, i: int) -> bool {
    exists|rel: int| #[trigger]
        first_mark(w, base, i, rel) && whole_chain(w, mark_address(base, i, rel))
}

/// What is found of the one signature in a range is its first mark.
pub proof fn lemma_signature(w: World, p: GameProfile, base: u64, i: int)
    requires
        shared_layout(p),
        0 <= i < 3,
    ensures
        match signature_in(w, p, base, i, 0) {
            Some(rel) => {
                &&& first_mark(w, base, i, rel)
                &&& 0 <= rel
                &&& rel + 8 <= range_bytes(w, base, i).len()
                &&& rel < 0x1_0000_0000_0000_0000 ==> plus(
                    base,
                    plus(p.scan_regions@[i].0, rel as u64),
                ) == mark_address(base, i, rel)
            },
            None => unmarked(w, base, i) && forall|rel: int|
                !#[trigger] first_mark(w, base, i, rel),
        },
        forall|rel: int| #[trigger]
            first_mark(w, base, i, rel) ==> signature_in(w, p, base, i, 0) == Some(rel),
{
    assert(p.signature_patterns@[0]@ =~= mark());
    assert(p.scan_regions@[i] == ((0x0600_0000 + 0x0200_0000 * i) as u64, 0x0200_0000u64));
    assert(block(p, base, i).address == range_start(base, i));
    assert((w.read)(block(p, base, i).address, block(p, base, i).size) == range_bytes(w, base, i));
    lemma_found_from(range_bytes(w, base, i), mark(), 0);
    if signature_in(w, p, base, i, 0) is None {
        assert forall|j: int| !#[trigger] occurs_at(range_bytes(w, base, i), mark(), j) by {}
    } else {
        let k = signature_in(w, p, base, i, 0).unwrap();
        assert forall|rel: int| #[trigger] first_mark(w, base, i, rel) implies rel == k by {
            if rel < k {
                assert(occurs_at(range_bytes(w, base, i), mark(), rel));
            } else if k < rel {
                assert(occurs_at(range_bytes(w, base, i), mark(), k));
            }
        }
    }
}

/// Whether no read gives more bytes than it asks for.
pub open spec fn reads_no_more(w: World) -> bool {
    forall|a: u64, n: u64| #[trigger] (w.read)(a, n).len() <= n
}

proof fn lemma_diagnosed(
    w: World,
    p: GameProfile,
    base: u64,
    i: int,
    valid: bool,
    notices: Seq<Notice>,
)
    requires
        shared_layout(p),
        reads_no_more(w),
        0 <= i <= 3,
        notices.len() > 0,
        notices.last() != Notice::NoValidChain,
    ensures
        ({
            let r = diagnosed(w, p, base, i, 0, valid, notices);
            &&& r.valid <==> valid || exists|k: int| i <= k < 3 && #[trigger] whole_in_range(
                w,
                base,
                k,
            )
            &&& r.notices.len() > 0
            &&& r.notices.last() == Notice::NoValidChain <==> !r.valid
        }),
    decreases 3 - i,
{
    reveal_with_fuel(diagnosed, 3);
    if i < 3 {
        lemma_signature(w, p, base, i);
        let (offset, size) = p.scan_regions@[i];
        match signature_in(w, p, base, i, 0) {
            Some(rel) => {
                assert((w.read)(range_start(base, i), 0x0200_0000).len() <= 0x0200_0000);
                let found = plus(offset, rel as u64);
                let at = plus(base, found);
                assert(at == mark_address(base, i, rel));
                let c = pointers_at(w, p, at);
                let holds = crate::diagnosis::chain_holds(c);
                assert(holds <==> whole_chain(w, at));
                assert(whole_in_range(w, base, i) <==> holds) by {
                    if holds {
                        assert(first_mark(w, base, i, rel));
                    }
                }
                lemma_diagnosed(
                    w,
                    p,
                    base,
                    i + 1,
                    valid || holds,
                    crate::diagnosis::chain_report(
                        notices.push(Notice::SignatureAt { pattern: 0, offset: found }),
                        c,
                    ),
                );
            },
            None => {
                assert(!whole_in_range(w, base, i));
                lemma_diagnosed(
                    w,
                    p,
                    base,
                    i + 1,
                    valid,
                    notices.push(Notice::NoMatch { offset, size }),
                );
            },
        }
        assert(forall|k: int|
            i <= k < 3 && #[trigger] whole_in_range(w, base, k) ==> k == i || i + 1 <= k < 3);
    }
}

/// A diagnosis is valid exactly where the main module can be had and in one of the three
/// ranges behind it the first mark is mirrored, with a root, an editor and a livery behind
/// it that are all other than zero; else its report ends with saying that there is no
/// such chain.
pub proof fn law_diagnosis_tells_whether_a_chain_is_whole(w: World, p: GameProfile, pid: u32)
    requires
        shared_layout(p),
        reads_no_more(w),
    ensures
        diagnosis(w, p, pid).valid <==> (w.base matches Some(base) && exists|i: int|
            0 <= i < 3 && #[trigger] whole_in_range(w, base, i)),
        w.base is Some ==> (diagnosis(w, p, pid).notices.last() == Notice::NoValidChain
            <==> !diagnosis(w, p, pid).valid),
{
    if w.base is Some {
        let base = w.base.unwrap();
        lemma_diagnosed(
            w,
            p,
            base,
            0,
            false,
            seq![Notice::Diagnostics { pid }, Notice::BaseAt { base }],
        );
    }
}

/// Whether a report ends with why there is no livery at the end of the chain from a mark:
/// the mark is not mirrored, or the editor is not open.
pub open spec fn gives_reason(
    w: World,
    base: u64,
    i: int,
    rel: int,
    livery: Option<u64>,
    all: Seq<Notice>,
) -> bool {
    livery is None ==> all.len() > 0 && all.last() == (if mirrored(
        w,
        mark_address(base, i, rel),
    ) {
        Notice::MenuNotDetected
    } else {
        Notice::ValidationFailed { offset: (0x0600_0000 + 0x0200_0000 * i + rel) as u64 }
    })
}

proof fn lemma_unmarked_range(w: World, p: GameProfile, base: u64, i: int, notices: Seq<Notice>)
    requires
        shared_layout(p),
        0 <= i < 3,
        signature_in(w, p, base, i, 0) is None,
    ensures
        searched(w, p, base, i, 0, notices) == searched(
            w,
            p,
            base,
            i + 1,
            0,
            notices.push(
                Notice::ScanningRange {
                    offset: p.scan_regions@[i].0,
                    size: p.scan_regions@[i].1,
                },
            ),
        ),
{
    let (offset, size) = p.scan_regions@[i];
    let scanning = notices.push(Notice::ScanningRange { offset, size });
    assert(searched(w, p, base, i, 0, notices) == searched(w, p, base, i, 1, scanning));
    assert(searched(w, p, base, i, 1, scanning) == searched(w, p, base, i + 1, 0, scanning));
}

proof fn lemma_marked_range(
    w: World,
    p: GameProfile,
    base: u64,
    i: int,
    rel: int,
    notices: Seq<Notice>,
)
    requires
        shared_layout(p),
        reads_no_more(w),
        0 <= i < 3,
        signature_in(w, p, base, i, 0) == Some(rel),
    ensures
        ({
            let r = searched(w, p, base, i, 0, notices);
            &&& r.livery == chain_livery(w, mark_address(base, i, rel))
            &&& gives_reason(w, base, i, rel, r.livery, r.notices)
        }),
{
    lemma_signature(w, p, base, i);
    let (offset, size) = p.scan_regions@[i];
    assert((w.read)(range_start(base, i), 0x0200_0000).len() <= 0x0200_0000);
    let found = plus(offset, rel as u64);
    let more = notices.push(Notice::ScanningRange { offset, size }).push(
        Notice::SignatureAt { pattern: 0, offset: found },
    );
    assert(searched(w, p, base, i, 0, notices) == after_signature(
        w,
        p,
        mark_address(base, i, rel),
        found,
        more,
    ));
    lemma_after_mark(w, p, base, i, rel, found, more);
}

/// The search comes to the first mark from range `i` on: that of range `k`, or none where
/// `k` is three.
proof fn lemma_searched(
    w: World,
    p: GameProfile,
    base: u64,
    i: int,
    k: int,
    rel: int,
    notices: Seq<Notice>,
)
    requires
        shared_layout(p),
        reads_no_more(w),
        0 <= i <= k <= 3,
        forall|j: int| i <= j < k ==> #[trigger] unmarked(w, base, j),
        k < 3 ==> first_mark(w, base, k, rel),
    ensures
        ({
            let r = searched(w, p, base, i, 0, notices);
            &&& k == 3 ==> r.livery is None && r.notices.len() > 0 && r.notices.last()
                == Notice::NeedsNewSignature
            &&& k < 3 ==> r.livery == chain_livery(w, mark_address(base, k, rel)) && gives_reason(
                w,
                base,
                k,
                rel,
                r.livery,
                r.notices,
            )
        }),
    decreases k - i,
{
    if i < k {
        lemma_signature(w, p, base, i);
        assert(unmarked(w, base, i));
        if signature_in(w, p, base, i, 0) is Some {
            assert(occurs_at(
                range_bytes(w, base, i),
                mark(),
                signature_in(w, p, base, i, 0).unwrap(),
            ));
        }
        lemma_unmarked_range(w, p, base, i, notices);
        lemma_searched(
            w,
            p,
            base,
            i + 1,
            k,
            rel,
            notices.push(
                Notice::ScanningRange {
                    offset: p.scan_regions@[i].0,
                    size: p.scan_regions@[i].1,
                },
            ),
        );
    } else if k < 3 {
        lemma_signature(w, p, base, k);
        lemma_marked_range(w, p, base, k, rel, notices);
    }
}

proof fn lemma_after_mark(
    w: World,
    p: GameProfile,
    base: u64,
    i: int,
    rel: int,
    found: u64,
    notices: Seq<Notice>,
)
    requires
        shared_layout(p),
        found == 0x0600_0000 + 0x0200_0000 * i + rel,
    ensures
        ({
            let at = mark_address(base, i, rel);
            let r = after_signature(w, p, at, found, notices);
            &&& r.livery == chain_livery(w, at)
            &&& gives_reason(w, base, i, rel, r.livery, r.notices)
        }),
{
}

/// The livery at the end of the chain from the mark at `at`.
pub open spec fn chain_livery(w: World, at: u64) -> Option<u64> {
    if mirrored(w, at) && editor_of(w, at) != 0 && livery_of(w, at) != 0 {
        Some(livery_of(w, at))
    } else {
        None
    }
}

/// The livery that an import works on is the one at the end of the chain from the first
/// mark in the three ranges behind the main module; without a mark there is none. The
/// report ends with the reason where there is none.
pub proof fn law_livery_is_at_the_end_of_the_first_chain(w: World, p: GameProfile)
    requires
        shared_layout(p),
        reads_no_more(w),
    ensures
        w.base is None ==> livery_search(w, p).livery is None && livery_search(w, p).notices
            == seq![Notice::BaseUnavailable],
        w.base matches Some(base) ==> {
            &&& (forall|k: int| 0 <= k < 3 ==> #[trigger] unmarked(w, base, k)) ==> livery_search(
                w,
                p,
            ).livery is None && livery_search(w, p).notices.last() == Notice::NeedsNewSignature
            &&& forall|k: int, rel: int|
                0 <= k < 3 && #[trigger] first_mark(w, base, k, rel) && (forall|j: int|
                    0 <= j < k ==> #[trigger] unmarked(w, base, j)) ==> livery_search(w, p).livery
                    == chain_livery(w, mark_address(base, k, rel)) && gives_reason(
                    w,
                    base,
                    k,
                    rel,
                    livery_search(w, p).livery,
                    livery_search(w, p).notices,
                )
        },
{
    if w.base is Some {
        let base = w.base.unwrap();
        let start = seq![Notice::ScanningFor];
        if forall|k: int| 0 <= k < 3 ==> #[trigger] unmarked(w, base, k) {
            lemma_searched(w, p, base, 0, 3, 0, start);
        }
        assert forall|k: int, rel: int|
            0 <= k < 3 && #[trigger] first_mark(w, base, k, rel) && (forall|j: int|
                0 <= j < k ==> #[trigger] unmarked(w, base, j)) implies livery_search(w, p).livery
            == chain_livery(w, mark_address(base, k, rel)) && gives_reason(
            w,
            base,
            k,
            rel,
            livery_search(w, p).livery,
            livery_search(w, p).notices,
        ) by {
            lemma_searched(w, p, base, 0, k, rel, start);
        }
    }
}

} // verus!
