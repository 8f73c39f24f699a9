//! What a search for the layers of a template finds.

use vstd::prelude::*;

use crate::device::World;
use crate::laws::imports::behind;
use crate::laws::tables::{holds_template, law_whole_template_is_found, least};
use crate::locator::{
    barren, best_of_region, block_end, candidate_at, candidate_of, count_order, count_pattern,
    counts_end, found_in_order, law_best_group_wins, law_search_misses_nothing, located, no_group,
    region_end, regions_end, regions_fit, seek, CandidateView, Seek, Session,
};
use crate::notices::Notice;
use crate::profiles::{shared_layout, GameProfile};
use crate::table::table_found;
use crate::winmem::{found_from, lemma_found_from, occurs_at, Region};

verus! {

/// The bytes of a region.
pub open spec fn bytes_of(w: World, region: Region) -> Seq<u8> {
    (w.read)(region.base, region.size)
}

/// Whether a region is searched: it is not empty, not larger than 256 megabytes, and was
/// read whole.
pub open spec fn searchable(w: World, region: Region) -> bool {
    1 <= region.size <= 0x1000_0000 && bytes_of(w, region).len() == region.size
}

/// Whether the two bytes at position `pos` of a region are the number `n`, the low byte
/// first, with room for the start of a group before them.
pub open spec fn counts(w: World, region: Region, pos: int, n: u32) -> bool {
    let mem = bytes_of(w, region);
    &&& 0x5A <= pos
    &&& pos + 2 <= mem.len()
    &&& mem[pos] == n % 256
    &&& mem[pos + 1] == (n / 256) % 256
}

/// Where the pointer to the table stands, for a number of layers at position `pos`.
pub open spec fn field_for(region: Region, pos: int) -> u64 {
    behind(region.base + pos - 0x5A, 0x78)
}

/// Two bytes are a number exactly where its pattern stands.
proof fn lemma_counts(w: World, region: Region, pos: int, n: u32)
    requires
        0 <= pos,
        pos + 2 <= bytes_of(w, region).len(),
    ensures
        occurs_at(bytes_of(w, region), count_pattern(n), pos) <==> bytes_of(w, region)[pos] == n
            % 256 && bytes_of(w, region)[pos + 1] == (n / 256) % 256,
{
    let mem = bytes_of(w, region);
    let s = mem.subrange(pos, pos + 2);
    assert(s[0] == mem[pos] && s[1] == mem[pos + 1]);
    assert(count_pattern(n)[0] == n % 256 && count_pattern(n)[1] == (n / 256) % 256);
    if mem[pos] == n % 256 && mem[pos + 1] == (n / 256) % 256 {
        assert(s =~= count_pattern(n));
    }
}

/// Whether a session is that of the number of layers at position `pos` of region `r`: the
/// group starts 0x5A before the number, the pointer to the table stands 0x78 behind the
/// group, the table is where it points, and the score is that of the table and 60 more.
pub open spec fn stands_at(
    w: World,
    p: GameProfile,
    pid: u32,
    s: Session,
    r: int,
    pos: int,
) -> bool {
    &&& 0 <= r < w.regions.len()
    &&& searchable(w, w.regions[r])
    &&& counts(w, w.regions[r], pos, s.layer_count)
    &&& s.pid == pid
    &&& s.count_address == w.regions[r].base + pos
    &&& s.group_address == s.count_address - 0x5A
    &&& s.table_pointer_field == field_for(w.regions[r], pos)
    &&& s.table_address == w.u64_at(s.table_pointer_field)
    &&& table_found(w, p, s.layer_count, s.table_pointer_field) matches Some(f) && s.score
        == f.score + 60
}

/// What a search finds stands in memory: the session is that of a number of layers in a
/// region that is searched, and the number is the one that was entered or up to three off
/// it.
pub proof fn law_session_stands_in_memory(w: World, p: GameProfile, pid: u32, entered: u32)
    requires
        shared_layout(p),
        regions_fit(w.regions),
        entered <= 0xFFFF_FFFC,
    ensures
        located(w, p, pid, entered).session matches Some(s) ==> {
            &&& s.layer_count >= 1
            &&& entered - 3 <= s.layer_count <= entered + 3
            &&& exists|r: int, pos: int| #[trigger] stands_at(w, p, pid, s, r, pos)
        },
{
    if located(w, p, pid, entered).session is Some {
        let s = located(w, p, pid, entered).session.unwrap();
        law_best_group_wins(w, p, pid, entered);
        let (a, r, c) = choose|a: int, r: int, c: CandidateView| #[trigger]
            found_in_order(w, p, pid, entered, a, r, c);
        let region = w.regions[r];
        let pos = c.place.count - region.base;
        assert(candidate_of(w, p, s.layer_count, region, c));
        assert(candidate_at(w, p, s.layer_count, region, pos) == Some(c));
        assert(occurs_at(bytes_of(w, region), count_pattern(s.layer_count), pos));
        lemma_counts(w, region, pos, s.layer_count);
        lemma_order(entered);
        assert(region.base + region.size <= u64::MAX);
        crate::table::law_found_table_covers_template(w, p, s.layer_count, s.table_pointer_field);
        lemma_score_is_bounded(w, p, s.layer_count, s.table_pointer_field);
        assert(s.pid == pid) by {
            lemma_pid_is_kept(w, p, pid, entered);
        }
        assert(stands_at(w, p, pid, s, r, pos));
    }
}

/// A session is of the process that was searched.
proof fn lemma_pid_is_kept(w: World, p: GameProfile, pid: u32, entered: u32)
    ensures
        located(w, p, pid, entered).session matches Some(s) ==> s.pid == pid,
{
}

/// The score of a table is at most 384.
proof fn lemma_score_is_bounded(w: World, p: GameProfile, count: u32, field: u64)
    requires
        shared_layout(p),
    ensures
        table_found(w, p, count, field) matches Some(f) ==> 0 < f.score <= 384,
{
    crate::laws::tables::law_found_table_holds_the_template(w, p, count, field);
    if table_found(w, p, count, field) is Some {
        let f = table_found(w, p, count, field).unwrap();
        lemma_worth_bound(w, f.table, least(count as int, 64));
    }
}

proof fn lemma_worth_bound(w: World, table: u64, m: int)
    ensures
        crate::laws::tables::worth(w, table, m) <= 6 * (if m > 0 {
            m
        } else {
            0
        }),
    decreases m,
{
    if m > 0 {
        lemma_worth_bound(w, table, m - 1);
    }
}

/// The numbers that are tried, in their order: the one that was entered, then the next
/// smaller and the next greater, then those that are two and three off. Numbers below one
/// are left out.
pub proof fn law_counts_are_tried_outwards(entered: u32)
    requires
        entered <= 0xFFFF_FFFC,
    ensures
        entered >= 1 ==> count_order(entered).len() > 0 && count_order(entered)[0] == entered,
        entered >= 4 ==> count_order(entered) == seq![
            entered,
            (entered - 1) as u32,
            (entered + 1) as u32,
            (entered - 2) as u32,
            (entered + 2) as u32,
            (entered - 3) as u32,
            (entered + 3) as u32,
        ],
        forall|n: u32| #[trigger]
            count_order(entered).contains(n) <==> n >= 1 && -3 <= n - entered <= 3,
        forall|i: int, j: int|
            0 <= i < j < count_order(entered).len() ==> off(
                #[trigger] count_order(entered)[i] as int,
                entered as int,
            ) <= off(#[trigger] count_order(entered)[j] as int, entered as int),
        count_order(entered).len() <= 7,
{
    lemma_order(entered);
    assert forall|n: u32| n >= 1 && -3 <= n - entered <= 3 implies #[trigger] count_order(
        entered,
    ).contains(n) by {
        lemma_listed(entered, n);
    }
}

/// How far a number is off another.
pub open spec fn off(a: int, b: int) -> int {
    if a < b {
        b - a
    } else {
        a - b
    }
}

proof fn lemma_order(entered: u32)
    requires
        entered <= 0xFFFF_FFFC,
    ensures
        count_order(entered).len() <= 7,
        entered >= 1 ==> count_order(entered).len() > 0 && count_order(entered)[0] == entered,
        entered >= 4 ==> count_order(entered) == seq![
            entered,
            (entered - 1) as u32,
            (entered + 1) as u32,
            (entered - 2) as u32,
            (entered + 2) as u32,
            (entered - 3) as u32,
            (entered + 3) as u32,
        ],
        forall|i: int|
            0 <= i < count_order(entered).len() ==> (#[trigger] count_order(entered)[i]) >= 1
                && -3 <= count_order(entered)[i] - entered <= 3,
        forall|i: int, j: int|
            0 <= i < j < count_order(entered).len() ==> off(
                #[trigger] count_order(entered)[i] as int,
                entered as int,
            ) <= off(#[trigger] count_order(entered)[j] as int, entered as int),
{
    let order = count_order(entered);
    if entered >= 4 {
        assert(order =~= seq![
            entered,
            (entered - 1) as u32,
            (entered + 1) as u32,
            (entered - 2) as u32,
            (entered + 2) as u32,
            (entered - 3) as u32,
            (entered + 3) as u32,
        ]);
    } else if entered == 3 {
        assert(order =~= seq![3u32, 2, 4, 1, 5, 6]);
    } else if entered == 2 {
        assert(order =~= seq![2u32, 1, 3, 4, 5]);
    } else if entered == 1 {
        assert(order =~= seq![1u32, 2, 3, 4]);
    } else {
        assert(order =~= seq![1u32, 2, 3]);
    }
}

proof fn lemma_listed(entered: u32, n: u32)
    requires
        entered <= 0xFFFF_FFFC,
        n >= 1,
        -3 <= n - entered <= 3,
    ensures
        count_order(entered).contains(n),
{
    let order = count_order(entered);
    lemma_order(entered);
    if entered >= 4 {
        let k = if n == entered {
            0int
        } else if n == entered - 1 {
            1
        } else if n == entered + 1 {
            2
        } else if n == entered - 2 {
            3
        } else if n == entered + 2 {
            4
        } else if n == entered - 3 {
            5
        } else {
            6
        };
        assert(order[k] == n);
    } else if entered == 3 {
        assert(order =~= seq![3u32, 2, 4, 1, 5, 6]);
        let k = if n == 3 {
            0int
        } else if n == 2 {
            1
        } else if n == 4 {
            2
        } else if n == 1 {
            3
        } else if n == 5 {
            4
        } else {
            5
        };
        assert(order[k] == n);
    } else if entered == 2 {
        assert(order =~= seq![2u32, 1, 3, 4, 5]);
        let k = if n == 2 {
            0int
        } else if n == 1 {
            1
        } else if n == 3 {
            2
        } else if n == 4 {
            3
        } else {
            4
        };
        assert(order[k] == n);
    } else if entered == 1 {
        assert(order =~= seq![1u32, 2, 3, 4]);
        assert(order[n - 1] == n);
    } else {
        assert(order =~= seq![1u32, 2, 3]);
        assert(order[n - 1] == n);
    }
}

/// Whether an open template with `n` layers stands in memory: in a region that is
/// searched the number of layers, in a group that points to a table with the whole
/// template.
pub open spec fn template_at(w: World, r: int, pos: int, n: u32) -> bool {
    &&& n >= 1
    &&& 0 <= r < w.regions.len()
    &&& searchable(w, w.regions[r])
    &&& counts(w, w.regions[r], pos, n)
    &&& holds_template(w, w.u64_at(field_for(w.regions[r], pos)), n)
}

/// A template that stands in memory is a candidate.
proof fn lemma_template_is_candidate(w: World, p: GameProfile, r: int, pos: int, n: u32)
    requires
        shared_layout(p),
        regions_fit(w.regions),
        template_at(w, r, pos, n),
    ensures
        !barren(w, p, n, w.regions[r]),
        !no_group(w, p, n),
{
    let region = w.regions[r];
    law_whole_template_is_found(w, p, n, field_for(region, pos));
    lemma_counts(w, region, pos, n);
    assert(region.base + region.size <= u64::MAX);
    assert(candidate_at(w, p, n, region, pos) is Some);
    let c = candidate_at(w, p, n, region, pos).unwrap();
    assert(c.place.count - region.base == pos);
    assert(candidate_of(w, p, n, region, c));
    assert(!barren(w, p, n, region));
    assert(!no_group(w, p, n));
}

/// An open template is located. Where a template with exactly the number of layers that
/// was entered stands in memory and no limit ends the search, the session has that
/// number; where one with a number up to three off it stands there, there is a session.
pub proof fn law_open_template_is_located(
    w: World,
    p: GameProfile,
    pid: u32,
    entered: u32,
    r: int,
    pos: int,
    n: u32,
)
    requires
        shared_layout(p),
        regions_fit(w.regions),
        entered <= 0xFFFF_FFFC,
        template_at(w, r, pos, n),
        -3 <= n - entered <= 3,
        !located(w, p, pid, entered).notices.contains(Notice::StoppedAfterHits),
        !located(w, p, pid, entered).notices.contains(Notice::StoppedAfterSeconds),
    ensures
        located(w, p, pid, entered).session is Some,
        n == entered ==> (located(w, p, pid, entered).session matches Some(s) && s.layer_count
            == entered),
{
    lemma_template_is_candidate(w, p, r, pos, n);
    lemma_listed(entered, n);
    lemma_order(entered);
    let order = count_order(entered);
    let k = order.index_of(n);
    assert(order[k] == n);
    if located(w, p, pid, entered).session is None {
        law_search_misses_nothing(w, p, pid, entered);
        assert(no_group(w, p, order[k]));
        assert(false);
    }
    if n == entered {
        law_best_group_wins(w, p, pid, entered);
        let (a, q, c) = choose|a: int, q: int, c: CandidateView| #[trigger]
            found_in_order(w, p, pid, entered, a, q, c);
        if a > 0 {
            assert(no_group(w, p, order[0]));
        }
    }
}

/// Of the templates of its region the session has the best: for any other number of
/// layers of the same size in that region whose table is found, the score is lower, or
/// equal at a higher address.
pub proof fn law_no_better_group_in_the_region(
    w: World,
    p: GameProfile,
    pid: u32,
    entered: u32,
)
    requires
        shared_layout(p),
        regions_fit(w.regions),
        entered <= 0xFFFF_FFFC,
        !located(w, p, pid, entered).notices.contains(Notice::StoppedAfterHits),
    ensures
        located(w, p, pid, entered).session matches Some(s) ==> exists|r: int, at: int| #[trigger]
            stands_at(w, p, pid, s, r, at) && forall|pos: int| #[trigger]
                counts(w, w.regions[r], pos, s.layer_count) ==> (table_found(
                    w,
                    p,
                    s.layer_count,
                    field_for(w.regions[r], pos),
                ) matches Some(f) ==> f.score + 60 < s.score || (f.score + 60 == s.score
                    && s.count_address <= w.regions[r].base + pos)),
{
    if located(w, p, pid, entered).session is Some {
        let s = located(w, p, pid, entered).session.unwrap();
        law_best_group_wins(w, p, pid, entered);
        let (a, r, c) = choose|a: int, r: int, c: CandidateView| #[trigger]
            found_in_order(w, p, pid, entered, a, r, c);
        let region = w.regions[r];
        let at = c.place.count - region.base;
        assert(candidate_of(w, p, s.layer_count, region, c));
        assert(candidate_at(w, p, s.layer_count, region, at) == Some(c));
        assert(occurs_at(bytes_of(w, region), count_pattern(s.layer_count), at));
        lemma_counts(w, region, at, s.layer_count);
        lemma_order(entered);
        assert(region.base + region.size <= u64::MAX);
        crate::table::law_found_table_covers_template(w, p, s.layer_count, s.table_pointer_field);
        lemma_score_is_bounded(w, p, s.layer_count, s.table_pointer_field);
        lemma_pid_is_kept(w, p, pid, entered);
        assert(stands_at(w, p, pid, s, r, at));
        assert forall|pos: int| #[trigger] counts(w, region, pos, s.layer_count) implies (
        table_found(w, p, s.layer_count, field_for(region, pos)) matches Some(f) ==> f.score + 60
            < s.score || (f.score + 60 == s.score && s.count_address <= region.base + pos)) by {
            lemma_counts(w, region, pos, s.layer_count);
            lemma_score_is_bounded(w, p, s.layer_count, field_for(region, pos));
            if table_found(w, p, s.layer_count, field_for(region, pos)) is Some {
                let d = candidate_at(w, p, s.layer_count, region, pos).unwrap();
                assert(d.place.count - region.base == pos);
                assert(candidate_of(w, p, s.layer_count, region, d));
                assert(best_of_region(w, p, s.layer_count, region, c));
            }
        }
    }
}

/// How many bytes the regions from region `r` on have.
pub open spec fn bytes_from_region(regions: Seq<Region>, r: int) -> int
    decreases regions.len() - r,
{
    if r >= regions.len() {
        0
    } else {
        regions[r].size + bytes_from_region(regions, r + 1)
    }
}

proof fn lemma_seek_spends(
    p: GameProfile,
    count: u32,
    base: u64,
    mem: Seq<u8>,
    from: nat,
    hits: u32,
)
    requires
        from <= mem.len(),
        hits + (mem.len() - from) <= 200000,
    ensures
        match seek(p, count, base, mem, from, hits) {
            Seek::End { hits: h } => h <= hits + (mem.len() - from),
            Seek::Stopped { hits: h } => false,
            Seek::Hit { place, from: next, hits: h } => from < next <= mem.len() && h + (mem.len()
                - next) <= hits + (mem.len() - from),
        },
    decreases mem.len() - from,
{
    lemma_found_from(mem, count_pattern(count), from as int);
    match found_from(mem, count_pattern(count), from as int) {
        Some(pos) => {
            if crate::locator::place_at(p, base, pos) is None {
                lemma_seek_spends(p, count, base, mem, (pos + 1) as nat, (hits + 1) as u32);
            }
        },
        None => {},
    }
}

/// Adding a notice that is none of a limit adds none of a limit.
proof fn lemma_add_notice(s: Seq<Notice>, x: Notice, y: Notice)
    requires
        !s.contains(y),
        x != y,
    ensures
        !s.push(x).contains(y),
{
    if s.push(x).contains(y) {
        let k = s.push(x).index_of(y);
        assert(s[k] == y);
    }
}

proof fn lemma_region_spends(
    w: World,
    p: GameProfile,
    count: u32,
    base: u64,
    mem: Seq<u8>,
    from: nat,
    hits: u32,
    groups: Seq<CandidateView>,
    notices: Seq<Notice>,
)
    requires
        from <= mem.len(),
        hits + (mem.len() - from) <= 200000,
        !notices.contains(Notice::StoppedAfterHits),
    ensures
        ({
            let e = region_end(w, p, count, base, mem, from, hits, groups, notices);
            &&& !e.stopped
            &&& e.hits <= hits + (mem.len() - from)
            &&& !e.notices.contains(Notice::StoppedAfterHits)
        }),
    decreases mem.len() - from,
{
    lemma_seek_spends(p, count, base, mem, from, hits);
    match seek(p, count, base, mem, from, hits) {
        Seek::Hit { place, from: next, hits: h } => {
            match table_found(w, p, count, place.field) {
                None => {
                    lemma_region_spends(w, p, count, base, mem, next, h, groups, notices);
                },
                Some(f) => {
                    let note = crate::locator::layout_notice(place, f, count);
                    lemma_add_notice(notices, note, Notice::StoppedAfterHits);
                    lemma_region_spends(
                        w,
                        p,
                        count,
                        base,
                        mem,
                        next,
                        h,
                        groups.push(CandidateView { place, finding: f }),
                        notices.push(note),
                    );
                },
            }
        },
        _ => {},
    }
}

proof fn lemma_bytes_positive(regions: Seq<Region>, r: int)
    ensures
        bytes_from_region(regions, r) >= 0,
    decreases regions.len() - r,
{
    if r < regions.len() {
        lemma_bytes_positive(regions, r + 1);
    }
}

proof fn lemma_regions_spend(
    w: World,
    p: GameProfile,
    count: u32,
    attempt: int,
    regions: Seq<Region>,
    r: int,
    hits: u32,
    notices: Seq<Notice>,
)
    requires
        0 <= r,
        hits + bytes_from_region(regions, r) <= 200000,
        !notices.contains(Notice::StoppedAfterHits),
    ensures
        ({
            let e = regions_end(w, p, count, attempt, regions, r, hits, notices);
            &&& e.hits <= hits + bytes_from_region(regions, r)
            &&& !e.notices.contains(Notice::StoppedAfterHits)
        }),
    decreases regions.len() - r,
{
    lemma_bytes_positive(regions, r + 1);
    if r >= regions.len() {
    } else if (w.seconds)(attempt as u64, (r + 1) as u64) > 45 {
        lemma_add_notice(notices, Notice::StoppedAfterSeconds, Notice::StoppedAfterHits);
    } else {
        let mem = (w.read)(regions[r].base, regions[r].size);
        let e = block_end(w, p, count, regions[r], mem, hits, notices);
        if mem.len() == regions[r].size {
            lemma_region_spends(w, p, count, regions[r].base, mem, 0, hits, Seq::empty(), notices);
        }
        if !e.stopped && e.groups.len() == 0 {
            lemma_regions_spend(w, p, count, attempt, regions, r + 1, e.hits, e.notices);
        }
    }
}

proof fn lemma_counts_spend(
    w: World,
    p: GameProfile,
    entered: u32,
    order: Seq<u32>,
    a: int,
    hits: u32,
    notices: Seq<Notice>,
)
    requires
        0 <= a <= order.len(),
        hits + (order.len() - a) * bytes_from_region(w.regions, 0) <= 200000,
        !notices.contains(Notice::StoppedAfterHits),
    ensures
        !counts_end(w, p, entered, order, a, hits, notices).notices.contains(
            Notice::StoppedAfterHits,
        ),
    decreases order.len() - a,
{
    let b = bytes_from_region(w.regions, 0);
    lemma_bytes_positive(w.regions, 0);
    if a >= order.len() {
    } else if (w.seconds)(a as u64, 0) > 45 {
        lemma_add_notice(notices, Notice::StoppedAfterSeconds, Notice::StoppedAfterHits);
    } else {
        let rest = (order.len() - a - 1) * b;
        assert((order.len() - a) * b == rest + b) by (nonlinear_arith)
            requires
                rest == (order.len() - a - 1) * b,
        ;
        assert(rest >= 0) by (nonlinear_arith)
            requires
                rest == (order.len() - a - 1) * b,
                order.len() - a - 1 >= 0,
                b >= 0,
        ;
        let note = Notice::ScanningForCount { count: order[a] };
        lemma_add_notice(notices, note, Notice::StoppedAfterHits);
        let more = notices.push(note);
        let e = regions_end(w, p, order[a], a, w.regions, 0, hits, more);
        lemma_regions_spend(w, p, order[a], a, w.regions, 0, hits, more);
        if e.groups.len() == 0 {
            lemma_counts_spend(w, p, entered, order, a + 1, e.hits, e.notices);
        }
    }
}

/// A search does not stop for the number of places while there can be no more than
/// 200000: with regions of 28571 bytes in all, for up to seven numbers of layers.
pub proof fn law_small_memory_is_searched_whole(w: World, p: GameProfile, pid: u32, entered: u32)
    requires
        entered <= 0xFFFF_FFFC,
        7 * bytes_from_region(w.regions, 0) <= 200000,
    ensures
        located(w, p, pid, entered).session is None ==> !located(
            w,
            p,
            pid,
            entered,
        ).notices.contains(Notice::StoppedAfterHits),
{
    lemma_order(entered);
    lemma_bytes_positive(w.regions, 0);
    let order = count_order(entered);
    let b = bytes_from_region(w.regions, 0);
    let start = seq![Notice::AutoLocating { count: entered }];
    assert(order.len() * b <= 7 * b) by (nonlinear_arith)
        requires
            order.len() <= 7,
            b >= 0,
    ;
    lemma_counts_spend(w, p, entered, order, 0, 0, start);
}

proof fn lemma_region_keeps_time(
    w: World,
    p: GameProfile,
    count: u32,
    base: u64,
    mem: Seq<u8>,
    from: nat,
    hits: u32,
    groups: Seq<CandidateView>,
    notices: Seq<Notice>,
)
    requires
        !notices.contains(Notice::StoppedAfterSeconds),
    ensures
        !region_end(w, p, count, base, mem, from, hits, groups, notices).notices.contains(
            Notice::StoppedAfterSeconds,
        ),
    decreases mem.len() - from,
{
    crate::locator::lemma_seek(p, count, base, mem, from, hits);
    match seek(p, count, base, mem, from, hits) {
        Seek::Hit { place, from: next, hits: h } => {
            match table_found(w, p, count, place.field) {
                None => {
                    lemma_region_keeps_time(w, p, count, base, mem, next, h, groups, notices);
                },
                Some(f) => {
                    let note = crate::locator::layout_notice(place, f, count);
                    lemma_add_notice(notices, note, Notice::StoppedAfterSeconds);
                    lemma_region_keeps_time(
                        w,
                        p,
                        count,
                        base,
                        mem,
                        next,
                        h,
                        groups.push(CandidateView { place, finding: f }),
                        notices.push(note),
                    );
                },
            }
        },
        Seek::Stopped { hits: h } => {
            lemma_add_notice(notices, Notice::StoppedAfterHits, Notice::StoppedAfterSeconds);
        },
        _ => {},
    }
}

/// Whether the clock never shows more than 45 seconds.
pub open spec fn quick(w: World) -> bool {
    forall|attempt: u64, step: u64| #[trigger] (w.seconds)(attempt, step) <= 45
}

proof fn lemma_regions_keep_time(
    w: World,
    p: GameProfile,
    count: u32,
    attempt: int,
    regions: Seq<Region>,
    r: int,
    hits: u32,
    notices: Seq<Notice>,
)
    requires
        quick(w),
        !notices.contains(Notice::StoppedAfterSeconds),
    ensures
        !regions_end(w, p, count, attempt, regions, r, hits, notices).notices.contains(
            Notice::StoppedAfterSeconds,
        ),
    decreases regions.len() - r,
{
    if r < regions.len() {
        assert((w.seconds)(attempt as u64, (r + 1) as u64) <= 45);
        let mem = (w.read)(regions[r].base, regions[r].size);
        let e = block_end(w, p, count, regions[r], mem, hits, notices);
        lemma_region_keeps_time(w, p, count, regions[r].base, mem, 0, hits, Seq::empty(), notices);
        if !e.stopped && e.groups.len() == 0 {
            lemma_regions_keep_time(w, p, count, attempt, regions, r + 1, e.hits, e.notices);
        }
    }
}

proof fn lemma_counts_keep_time(
    w: World,
    p: GameProfile,
    entered: u32,
    order: Seq<u32>,
    a: int,
    hits: u32,
    notices: Seq<Notice>,
)
    requires
        quick(w),
        !notices.contains(Notice::StoppedAfterSeconds),
    ensures
        !counts_end(w, p, entered, order, a, hits, notices).notices.contains(
            Notice::StoppedAfterSeconds,
        ),
    decreases order.len() - a,
{
    if a < order.len() {
        assert((w.seconds)(a as u64, 0) <= 45);
        let note = Notice::ScanningForCount { count: order[a] };
        lemma_add_notice(notices, note, Notice::StoppedAfterSeconds);
        let more = notices.push(note);
        let e = regions_end(w, p, order[a], a, w.regions, 0, hits, more);
        lemma_regions_keep_time(w, p, order[a], a, w.regions, 0, hits, more);
        if e.groups.len() == 0 {
            lemma_counts_keep_time(w, p, entered, order, a + 1, e.hits, e.notices);
        }
    }
}

/// A search that takes at most 45 seconds is not ended by the clock, and one that starts
/// later finds nothing.
pub proof fn law_search_has_45_seconds(w: World, p: GameProfile, pid: u32, entered: u32)
    ensures
        quick(w) && located(w, p, pid, entered).session is None ==> !located(
            w,
            p,
            pid,
            entered,
        ).notices.contains(Notice::StoppedAfterSeconds),
        (w.seconds)(0, 0) > 45 ==> located(w, p, pid, entered).session is None,
{
    let order = count_order(entered);
    let start = seq![Notice::AutoLocating { count: entered }];
    if quick(w) {
        lemma_counts_keep_time(w, p, entered, order, 0, 0, start);
    }
    if (w.seconds)(0, 0) > 45 {
        assert(counts_end(w, p, entered, order, 0, 0, start).groups =~= Seq::empty());
        crate::locator::lemma_ranked_len(Seq::empty());
    }
}

/// A search stops at the place behind the first 200000, and says so.
pub proof fn law_search_stops_after_200000_places(
    w: World,
    p: GameProfile,
    count: u32,
    base: u64,
    mem: Seq<u8>,
    from: nat,
    hits: u32,
    groups: Seq<CandidateView>,
    notices: Seq<Notice>,
    pos: int,
)
    requires
        hits >= 200000,
        from <= pos,
        occurs_at(mem, count_pattern(count), pos),
    ensures
        ({
            let e = region_end(w, p, count, base, mem, from, hits, groups, notices);
            &&& e.stopped
            &&& e.groups == groups
            &&& e.hits == hits
            &&& e.notices == notices.push(Notice::StoppedAfterHits)
        }),
{
    lemma_found_from(mem, count_pattern(count), from as int);
}

} // verus!
