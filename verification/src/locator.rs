//! The search for the layers of an open template in the memory of a game.
//!
//! The number of layers stands somewhere in private memory. Around it lies the
//! group of layers, and the group points to the table of layers; a place counts
//! only where that table covers the whole template.

use vstd::prelude::*;

use crate::device::{
    answered, asked, fits, offset_by, one_read, plus, read_one, Reply, Request, RequestView, World,
};
use crate::notices::{begins, group_begins, lemma_begins_chain, Notice};
use crate::profiles::GameProfile;
use crate::table::{
    law_found_table_covers_template, table_found, Finding, FindingView, Sample, TableCheck,
    HIGHEST_SCORE,
};
use crate::winmem::{
    described, find_from, found_from, law_walk_keeps_usable_memory, lemma_found_from, occurs_at,
    walked, Region, LOWEST_ADDRESS,
};

verus! {

/// How many seconds a search goes on at most.
pub const MOST_SECONDS: u64 = 45;

/// How many places with the number of layers are looked at.
pub const MOST_HITS: u32 = 200000;

/// The size of the largest region that is searched.
pub const LARGEST_REGION: u64 = 0x1000_0000;

/// What a score gains by the layout around the number of layers.
pub const LAYOUT_BONUS: i64 = 60;

/// The layers of a template, where a search found them.
#[derive(Clone, Copy, Debug, PartialEq, Eq, Structural)]
pub struct Session {
    pub pid: u32,
    pub layer_count: u32,
    pub group_address: u64,
    pub count_address: u64,
    pub table_pointer_field: u64,
    pub table_address: u64,
    pub score: i64,
}

/// A place where the layers can be.
#[derive(Debug)]
pub struct Candidate {
    pub place: Place,
    pub finding: Finding,
}

/// A place where the layers can be, what was found there as a view.
pub struct CandidateView {
    pub place: Place,
    pub finding: FindingView,
}

impl View for Candidate {
    type V = CandidateView;

    open spec fn view(&self) -> CandidateView {
        CandidateView { place: self.place, finding: self.finding@ }
    }
}

/// The candidates of a list.
pub open spec fn candidates(v: Seq<Candidate>) -> Seq<CandidateView> {
    v.map_values(|c: Candidate| c@)
}

/// The addresses of a group of layers.
#[derive(Clone, Copy, Debug, PartialEq, Eq, Structural)]
pub struct Place {
    /// Where the group starts.
    pub group: u64,
    /// Where the number of layers stands.
    pub count: u64,
    /// Where the pointer to the table stands.
    pub field: u64,
}

/// The numbers of layers to search for, the most likely first: what the user
/// entered and what is up to three off it.
pub open spec fn count_order(entered: u32) -> Seq<u32> {
    let n = entered as int;
    count_if(n - 0) + count_if(n - 1) + count_if(n + 1) + count_if(n - 2) + count_if(n + 2)
        + count_if(n - 3) + count_if(n + 3)
}

/// A number of layers, where it is positive, within the range of the type.
pub open spec fn count_if(n: int) -> Seq<u32> {
    if n >= 1 {
        seq![(n % 0x1_0000_0000) as u32]
    } else {
        Seq::empty()
    }
}

/// The bytes that the number of layers is stored as: two, the lowest first.
pub open spec fn count_pattern(count: u32) -> Seq<u8> {
    seq![(count % 256) as u8, ((count / 256) % 256) as u8]
}

/// The group around a number of layers at position `pos` of the region at `base`,
/// where it lies in the region.
pub open spec fn place_at(p: GameProfile, base: u64, pos: int) -> Option<Place> {
    let count = base + pos;
    let group = count - p.livery_count_offset;
    if group < base {
        None
    } else {
        Some(
            Place {
                group: group as u64,
                count: count as u64,
                field: plus(group as u64, p.layer_table_offset),
            },
        )
    }
}

/// What comes next in a region.
pub enum Seek {
    /// Nothing.
    End { hits: u32 },
    /// More places than are looked at.
    Stopped { hits: u32 },
    /// A group; the search goes on at `from`.
    Hit { place: Place, from: nat, hits: u32 },
}

/// What comes next in the bytes `mem` of the region at `base` from `from` on.
pub open spec fn seek(
    p: GameProfile,
    count: u32,
    base: u64,
    mem: Seq<u8>,
    from: nat,
    hits: u32,
) -> Seek
    decreases mem.len() - from,
{
    proof {
        lemma_found_from(mem, count_pattern(count), from as int);
    }
    match found_from(mem, count_pattern(count), from as int) {
        None => Seek::End { hits },
        Some(pos) => if hits >= MOST_HITS {
            Seek::Stopped { hits }
        } else {
            match place_at(p, base, pos) {
                None => seek(p, count, base, mem, (pos + 1) as nat, (hits + 1) as u32),
                Some(place) => Seek::Hit {
                    place,
                    from: (pos + 1) as nat,
                    hits: (hits + 1) as u32,
                },
            }
        },
    }
}

/// A search moves on.
pub proof fn lemma_seek(p: GameProfile, count: u32, base: u64, mem: Seq<u8>, from: nat, hits: u32)
    ensures
        seek(p, count, base, mem, from, hits) matches Seek::Hit { place, from: next, hits: h }
            ==> from < next <= mem.len(),
    decreases mem.len() - from,
{
    lemma_found_from(mem, count_pattern(count), from as int);
    match found_from(mem, count_pattern(count), from as int) {
        Some(pos) => {
            if hits < MOST_HITS && place_at(p, base, pos) is None {
                lemma_seek(p, count, base, mem, (pos + 1) as nat, (hits + 1) as u32);
            }
        },
        None => {},
    }
}

/// How the search of a region, of the regions or of all numbers of layers ends.
pub struct SearchEnd {
    pub groups: Seq<CandidateView>,
    pub hits: u32,
    pub notices: Seq<Notice>,
    /// Whether the search stopped before its end.
    pub stopped: bool,
}

/// The report of a candidate.
pub open spec fn layout_notice(place: Place, f: FindingView, count: u32) -> Notice {
    Notice::LayoutCandidate {
        group: place.group,
        count: place.count,
        table: f.table,
        validated: f.validated as u32,
        layers: count,
    }
}

/// How the search of a region ends.
pub open spec fn region_end(
    w: World,
    p: GameProfile,
    count: u32,
    base: u64,
    mem: Seq<u8>,
    from: nat,
    hits: u32,
    groups: Seq<CandidateView>,
    notices: Seq<Notice>,
) -> SearchEnd
    decreases mem.len() - from, 0nat,
{
    match seek(p, count, base, mem, from, hits) {
        Seek::End { hits: h } => SearchEnd { groups, hits: h, notices, stopped: false },
        Seek::Stopped { hits: h } => SearchEnd {
            groups,
            hits: h,
            notices: notices.push(Notice::StoppedAfterHits),
            stopped: true,
        },
        Seek::Hit { place, from: next, hits: h } => {
            proof {
                lemma_seek(p, count, base, mem, from, hits);
            }
            after_check(
                w,
                p,
                count,
                base,
                mem,
                next,
                h,
                groups,
                notices,
                place,
                table_found(w, p, count, place.field),
            )
        },
    }
}

/// How the search of a region ends once it is known what is found at `place`.
pub open spec fn after_check(
    w: World,
    p: GameProfile,
    count: u32,
    base: u64,
    mem: Seq<u8>,
    from: nat,
    hits: u32,
    groups: Seq<CandidateView>,
    notices: Seq<Notice>,
    place: Place,
    found: Option<FindingView>,
) -> SearchEnd
    decreases mem.len() - from, 1nat,
{
    match found {
        None => region_end(w, p, count, base, mem, from, hits, groups, notices),
        Some(f) => region_end(
            w,
            p,
            count,
            base,
            mem,
            from,
            hits,
            groups.push(CandidateView { place, finding: f }),
            notices.push(layout_notice(place, f, count)),
        ),
    }
}

/// Whether a region is searched, by its size.
pub open spec fn searched_size(size: u64) -> bool {
    0 < size <= LARGEST_REGION
}

/// How the search of the regions from region `r` on ends: with the first region
/// that has a candidate.
pub open spec fn regions_end(
    w: World,
    p: GameProfile,
    count: u32,
    attempt: int,
    regions: Seq<Region>,
    r: int,
    hits: u32,
    notices: Seq<Notice>,
) -> SearchEnd
    decreases regions.len() - r,
{
    if r >= regions.len() {
        SearchEnd { groups: Seq::empty(), hits, notices, stopped: false }
    } else if (w.seconds)(attempt as u64, (r + 1) as u64) > MOST_SECONDS {
        SearchEnd {
            groups: Seq::empty(),
            hits,
            notices: notices.push(Notice::StoppedAfterSeconds),
            stopped: true,
        }
    } else {
        let e = block_end(
            w,
            p,
            count,
            regions[r],
            (w.read)(regions[r].base, regions[r].size),
            hits,
            notices,
        );
        if e.stopped || e.groups.len() > 0 {
            e
        } else {
            regions_end(w, p, count, attempt, regions, r + 1, e.hits, e.notices)
        }
    }
}

/// How the search of one region ends that was read as `mem`. A region that is too
/// large, or was not read whole, is left out.
pub open spec fn block_end(
    w: World,
    p: GameProfile,
    count: u32,
    region: Region,
    mem: Seq<u8>,
    hits: u32,
    notices: Seq<Notice>,
) -> SearchEnd {
    if searched_size(region.size) && mem.len() == region.size {
        region_end(w, p, count, region.base, mem, 0, hits, Seq::empty(), notices)
    } else {
        SearchEnd { groups: Seq::empty(), hits, notices, stopped: false }
    }
}

/// How a search ends: the number of layers that was found, and the candidates.
pub struct CountsEnd {
    pub matched: u32,
    pub groups: Seq<CandidateView>,
    pub notices: Seq<Notice>,
}

/// How the search ends from the number of layers `a` of `order` on.
pub open spec fn counts_end(
    w: World,
    p: GameProfile,
    entered: u32,
    order: Seq<u32>,
    a: int,
    hits: u32,
    notices: Seq<Notice>,
) -> CountsEnd
    decreases order.len() - a, 1nat,
{
    if a >= order.len() {
        CountsEnd { matched: entered, groups: Seq::empty(), notices }
    } else if (w.seconds)(a as u64, 0) > MOST_SECONDS {
        CountsEnd {
            matched: entered,
            groups: Seq::empty(),
            notices: notices.push(Notice::StoppedAfterSeconds),
        }
    } else {
        after_regions(
            w,
            p,
            entered,
            order,
            a,
            regions_end(
                w,
                p,
                order[a],
                a,
                w.regions,
                0,
                hits,
                notices.push(Notice::ScanningForCount { count: order[a] }),
            ),
        )
    }
}

/// How the search ends once that for number `a` of `order` has ended.
pub open spec fn after_regions(
    w: World,
    p: GameProfile,
    entered: u32,
    order: Seq<u32>,
    a: int,
    e: SearchEnd,
) -> CountsEnd
    decreases order.len() - a, 0nat,
{
    if a >= order.len() {
        CountsEnd { matched: entered, groups: Seq::empty(), notices: e.notices }
    } else if e.groups.len() > 0 {
        CountsEnd { matched: order[a], groups: e.groups, notices: e.notices }
    } else {
        counts_end(w, p, entered, order, a + 1, e.hits, e.notices)
    }
}

/// The candidates `s`, ordered by their score, with `c` in its place: behind those
/// with at least its score.
pub open spec fn ranked_with(s: Seq<CandidateView>, c: CandidateView) -> Seq<CandidateView>
    decreases s.len(),
{
    if s.len() == 0 || s.last().finding.score >= c.finding.score {
        s.push(c)
    } else {
        ranked_with(s.drop_last(), c).push(s.last())
    }
}

/// The candidates, the highest score first, and of equal ones the earlier first.
pub open spec fn ranked(s: Seq<CandidateView>) -> Seq<CandidateView>
    decreases s.len(),
{
    if s.len() == 0 {
        Seq::empty()
    } else {
        ranked_with(ranked(s.drop_last()), s.last())
    }
}

/// The report of the first `n` samples of a candidate.
pub open spec fn sample_notices(samples: Seq<Sample>, n: int) -> Seq<Notice>
    decreases n,
{
    if n <= 0 {
        Seq::empty()
    } else {
        sample_notices(samples, n - 1).push(Notice::TableSample { sample: samples[n - 1] })
    }
}

/// The report of the first `n` candidates, each with its first four samples.
pub open spec fn candidate_notices(s: Seq<CandidateView>, n: int) -> Seq<Notice>
    decreases n,
{
    if n <= 0 {
        Seq::empty()
    } else {
        let c = s[n - 1];
        let shown = if c.finding.samples.len() < 4 {
            c.finding.samples.len() as int
        } else {
            4
        };
        candidate_notices(s, n - 1).push(
            Notice::Candidate {
                score: (c.finding.score + LAYOUT_BONUS) as i64,
                group: c.place.group,
                count: c.place.count,
                field: c.place.field,
                table: c.finding.table,
                validated: c.finding.validated as u32,
            },
        ) + sample_notices(c.finding.samples, shown)
    }
}

/// The session that a candidate stands for.
pub open spec fn session_of(pid: u32, matched: u32, c: CandidateView) -> Session {
    Session {
        pid,
        layer_count: matched,
        group_address: c.place.group,
        count_address: c.place.count,
        table_pointer_field: c.place.field,
        table_address: c.finding.table,
        score: (c.finding.score + LAYOUT_BONUS) as i64,
    }
}

/// What a search comes to.
pub struct LocateOutcome {
    pub session: Option<Session>,
    pub notices: Seq<Notice>,
}

/// What a search comes to that ended with `e`: the session of the best candidate.
pub open spec fn concluded(pid: u32, entered: u32, e: CountsEnd) -> LocateOutcome {
    let best = ranked(e.groups);
    if best.len() == 0 {
        LocateOutcome { session: None, notices: e.notices }
    } else {
        let locked = if e.matched != entered {
            e.notices.push(Notice::LockedOnto { matched: e.matched, entered })
        } else {
            e.notices
        };
        let shown = if best.len() < 5 {
            best.len() as int
        } else {
            5
        };
        let s = session_of(pid, e.matched, best[0]);
        LocateOutcome {
            session: Some(s),
            notices: (locked + candidate_notices(best, shown)).push(
                Notice::SavedSession { session: s },
            ),
        }
    }
}

/// What the search for a template with `entered` layers comes to in the world `w`.
pub open spec fn located(w: World, p: GameProfile, pid: u32, entered: u32) -> LocateOutcome {
    concluded(
        pid,
        entered,
        counts_end(
            w,
            p,
            entered,
            count_order(entered),
            0,
            0,
            seq![Notice::AutoLocating { count: entered }],
        ),
    )
}

/// Adds a number of layers, where it is positive.
fn push_count(out: &mut Vec<u32>, n: i64)
    requires
        n <= 0x1_0000_0002,
    ensures
        final(out)@ == old(out)@ + count_if(n as int),
{
    if n >= 1 {
        let v: u32 = (n % 0x1_0000_0000) as u32;
        out.push(v);
        assert(out@ =~= old(out)@ + count_if(n as int));
    } else {
        assert(out@ =~= old(out)@ + count_if(n as int));
    }
}

/// The numbers of layers to search for.
pub fn counts_to_try(entered: u32) -> (r: Vec<u32>)
    ensures
        r@ == count_order(entered),
{
    let n: i64 = entered as i64;
    let mut out: Vec<u32> = Vec::new();
    push_count(&mut out, n);
    push_count(&mut out, n - 1);
    push_count(&mut out, n + 1);
    push_count(&mut out, n - 2);
    push_count(&mut out, n + 2);
    push_count(&mut out, n - 3);
    push_count(&mut out, n + 3);
    assert(out@ =~= count_order(entered));
    out
}

/// What comes next in a region.
enum SeekStep {
    End { hits: u32 },
    Stopped { hits: u32 },
    Hit { place: Place, from: usize, hits: u32 },
}

impl SeekStep {
    spec fn spec_of(self) -> Seek {
        match self {
            SeekStep::End { hits } => Seek::End { hits },
            SeekStep::Stopped { hits } => Seek::Stopped { hits },
            SeekStep::Hit { place, from, hits } => Seek::Hit { place, from: from as nat, hits },
        }
    }
}

/// The group around a number of layers.
fn find_place(p: &GameProfile, base: u64, pos: usize) -> (r: Option<Place>)
    requires
        base + pos <= u64::MAX,
    ensures
        r == place_at(*p, base, pos as int),
{
    let count: u64 = base + pos as u64;
    if count < p.livery_count_offset {
        return None;
    }
    let group: u64 = count - p.livery_count_offset;
    if group < base {
        return None;
    }
    Some(Place { group, count, field: offset_by(group, p.layer_table_offset) })
}

/// Searches the bytes of a region from `from` on.
fn seek_next(p: &GameProfile, count: u32, base: u64, mem: &Vec<u8>, from: usize, hits: u32) -> (r:
    SeekStep)
    requires
        base + mem@.len() <= u64::MAX,
        from <= mem@.len(),
        hits <= MOST_HITS,
    ensures
        r.spec_of() == seek(*p, count, base, mem@, from as nat, hits),
        match r {
            SeekStep::End { hits: h } => h <= MOST_HITS,
            SeekStep::Stopped { hits: h } => h <= MOST_HITS,
            SeekStep::Hit { place, from: next, hits: h } => h <= MOST_HITS && from < next
                <= mem@.len(),
        },
{
    let pattern: Vec<u8> = vec![(count % 256) as u8, ((count / 256) % 256) as u8];
    assert(pattern@ =~= count_pattern(count));
    let mut at: usize = from;
    let mut seen: u32 = hits;
    loop
        invariant
            base + mem@.len() <= u64::MAX,
            from <= at <= mem@.len(),
            seen <= MOST_HITS,
            pattern@ == count_pattern(count),
            seek(*p, count, base, mem@, from as nat, hits) == seek(
                *p,
                count,
                base,
                mem@,
                at as nat,
                seen,
            ),
        decreases mem@.len() - at,
    {
        match find_from(mem.as_slice(), pattern.as_slice(), at) {
            None => {
                return SeekStep::End { hits: seen };
            },
            Some(pos) => {
                if seen >= MOST_HITS {
                    return SeekStep::Stopped { hits: seen };
                }
                seen = seen + 1;
                assert(pos < mem.len());
                at = pos + 1;
                if let Some(place) = find_place(p, base, pos) {
                    return SeekStep::Hit { place, from: at, hits: seen };
                }
            },
        }
    }
}

/// Where a candidate goes among ordered ones.
proof fn lemma_ranked_with(s: Seq<CandidateView>, c: CandidateView, i: int)
    requires
        0 <= i <= s.len(),
        i > 0 ==> s[i - 1].finding.score >= c.finding.score,
        forall|j: int| i <= j < s.len() ==> (#[trigger] s[j]).finding.score < c.finding.score,
    ensures
        ranked_with(s, c) == s.insert(i, c),
    decreases s.len(),
{
    if i == s.len() {
        assert(s.insert(i, c) =~= s.push(c));
    } else {
        assert(s[s.len() - 1].finding.score < c.finding.score);
        assert forall|j: int| i <= j < s.drop_last().len() implies (
        #[trigger] s.drop_last()[j]).finding.score < c.finding.score by {
            assert(s.drop_last()[j] == s[j]);
        }
        lemma_ranked_with(s.drop_last(), c, i);
        assert(s.insert(i, c) =~= s.drop_last().insert(i, c).push(s.last()));
    }
}

/// Puts a candidate in its place.
fn insert_scored(best: &mut Vec<Candidate>, c: Candidate)
    requires
        c.finding.score <= HIGHEST_SCORE,
        forall|i: int|
            0 <= i < old(best)@.len() ==> (#[trigger] old(best)@[i]).finding.score
                <= HIGHEST_SCORE,
    ensures
        candidates(final(best)@) == ranked_with(candidates(old(best)@), c@),
        forall|i: int|
            0 <= i < final(best)@.len() ==> (#[trigger] final(best)@[i]).finding.score
                <= HIGHEST_SCORE,
{
    let ghost all = candidates(best@);
    let mut i: usize = best.len();
    while i > 0 && best[i - 1].finding.score < c.finding.score
        invariant
            i <= best@.len(),
            all == candidates(best@),
            forall|j: int| i <= j < all.len() ==> (#[trigger] all[j]).finding.score < c@.finding.score,
        decreases i,
    {
        i = i - 1;
        assert(all[i as int] == best@[i as int]@);
    }
    proof {
        if i > 0 {
            assert(all[i - 1] == best@[i - 1]@);
        }
        lemma_ranked_with(all, c@, i as int);
    }
    let ghost view = c@;
    best.insert(i, c);
    assert(candidates(best@) =~= all.insert(i as int, view));
}

/// Where a search has come to.
#[derive(Clone, Copy)]
enum LocateStage {
    Clock,
    Regions,
    Step,
    Block,
    Check,
    Done,
}

/// A search for the layers of a template, one request at a time.
pub struct Locator {
    profile: GameProfile,
    pid: u32,
    entered: u32,
    order: Vec<u32>,
    stage: LocateStage,
    attempt: usize,
    regions: Vec<Region>,
    region: usize,
    mem: Vec<u8>,
    from: usize,
    hits: u32,
    place: Place,
    check: TableCheck,
    /// The candidates in the order of their discovery.
    found: Ghost<Seq<CandidateView>>,
    /// The candidates in the order of their score.
    best: Vec<Candidate>,
    notices: Vec<Notice>,
    session: Option<Session>,
}

/// How far a search still has to go, in numbers of layers, regions, bytes and
/// requests.
pub struct Distance {
    pub counts: nat,
    pub regions: nat,
    pub bytes: nat,
    pub requests: nat,
}

/// Whether `a` is nearer to the end than `b`.
pub open spec fn nearer(a: Distance, b: Distance) -> bool {
    a.counts < b.counts || a.counts == b.counts && (a.regions < b.regions || a.regions == b.regions
        && (a.bytes < b.bytes || a.bytes == b.bytes && a.requests < b.requests))
}

impl Locator {
    /// What was reported so far.
    pub closed spec fn reported(self) -> Seq<Notice> {
        self.notices@
    }

    /// The profile that the search goes by.
    pub closed spec fn game(self) -> GameProfile {
        self.profile
    }

    /// The number of layers that is searched for.
    spec fn count(self) -> u32 {
        self.order@[self.attempt as int]
    }

    /// The region that is searched.
    spec fn here(self) -> Region {
        self.regions@[self.region as int]
    }

    /// Whether the search is at a number of layers and its candidates are ordered.
    spec fn sound(self) -> bool {
        &&& self.order@ == count_order(self.entered)
        &&& self.attempt < self.order@.len()
        &&& self.hits <= MOST_HITS
        &&& candidates(self.best@) == ranked(self.found@)
        &&& forall|i: int|
            0 <= i < self.best@.len() ==> (#[trigger] self.best@[i]).finding.score <= HIGHEST_SCORE
        &&& forall|i: int|
            0 <= i < self.regions@.len() ==> (#[trigger] self.regions@[i]).base
                + self.regions@[i].size <= u64::MAX
    }

    /// Whether what was gathered fits where the search has come to.
    pub closed spec fn wf(self) -> bool {
        match self.stage {
            LocateStage::Clock => self.sound() && self.found@.len() == 0,
            LocateStage::Regions => self.sound() && self.found@.len() == 0,
            LocateStage::Step => self.sound() && self.found@.len() == 0 && self.region
                < self.regions@.len(),
            LocateStage::Block => self.sound() && self.found@.len() == 0 && self.region
                < self.regions@.len() && searched_size(self.here().size),
            LocateStage::Check => {
                &&& self.sound()
                &&& self.region < self.regions@.len()
                &&& self.mem@.len() == self.here().size
                &&& self.from <= self.mem@.len()
                &&& self.check.wf()
                &&& self.check.asks() is Some
            },
            LocateStage::Done => true,
        }
    }

    /// The next request; none when the search has ended.
    pub closed spec fn asks(self) -> Option<RequestView> {
        match self.stage {
            LocateStage::Clock => Some(
                RequestView::Clock { attempt: self.attempt as u64, step: 0 },
            ),
            LocateStage::Regions => Some(RequestView::Regions),
            LocateStage::Step => Some(
                RequestView::Clock { attempt: self.attempt as u64, step: (self.region + 1) as u64 },
            ),
            LocateStage::Block => Some(one_read(self.here().base, self.here().size)),
            LocateStage::Check => self.check.asks(),
            LocateStage::Done => None,
        }
    }

    /// What the search comes to when that for the current number of layers ends
    /// with `e`.
    spec fn rest(self, w: World, e: SearchEnd) -> LocateOutcome {
        concluded(
            self.pid,
            self.entered,
            after_regions(
                w,
                self.profile,
                self.entered,
                self.order@,
                self.attempt as int,
                e,
            ),
        )
    }

    /// What the search comes to when it goes on with region `r`.
    spec fn rest_from(self, w: World, r: int, hits: u32, notices: Seq<Notice>) -> LocateOutcome {
        self.rest(
            w,
            regions_end(
                w,
                self.profile,
                self.count(),
                self.attempt as int,
                self.regions@,
                r,
                hits,
                notices,
            ),
        )
    }

    /// What the search comes to when that of the current region ends with `e`.
    spec fn rest_after(self, w: World, e: SearchEnd) -> LocateOutcome {
        if e.stopped || e.groups.len() > 0 {
            self.rest(w, e)
        } else {
            self.rest_from(w, self.region + 1, e.hits, e.notices)
        }
    }

    /// How the search of the current region ends.
    spec fn region_rest(self, w: World) -> SearchEnd {
        region_end(
            w,
            self.profile,
            self.count(),
            self.here().base,
            self.mem@,
            self.from as nat,
            self.hits,
            self.found@,
            self.notices@,
        )
    }

    /// What the search comes to when it goes on in the current region.
    spec fn rest_here(self, w: World) -> LocateOutcome {
        self.rest_after(w, self.region_rest(w))
    }

    /// What the search comes to where requests are answered from now on as in `w`.
    pub closed spec fn expects(self, w: World) -> LocateOutcome {
        let p = self.profile;
        let notices = self.notices@;
        match self.stage {
            LocateStage::Clock => concluded(
                self.pid,
                self.entered,
                counts_end(
                    w,
                    p,
                    self.entered,
                    self.order@,
                    self.attempt as int,
                    self.hits,
                    notices,
                ),
            ),
            LocateStage::Regions => self.rest(
                w,
                regions_end(
                    w,
                    p,
                    self.count(),
                    self.attempt as int,
                    w.regions,
                    0,
                    self.hits,
                    notices,
                ),
            ),
            LocateStage::Step => self.rest_from(w, self.region as int, self.hits, notices),
            LocateStage::Block => self.rest_after(
                w,
                block_end(
                    w,
                    p,
                    self.count(),
                    self.here(),
                    (w.read)(self.here().base, self.here().size),
                    self.hits,
                    notices,
                ),
            ),
            LocateStage::Check => self.rest_after(
                w,
                after_check(
                    w,
                    p,
                    self.count(),
                    self.here().base,
                    self.mem@,
                    self.from as nat,
                    self.hits,
                    self.found@,
                    notices,
                    self.place,
                    self.check.expects(w),
                ),
            ),
            LocateStage::Done => LocateOutcome { session: self.session, notices },
        }
    }

    /// How far the search still has to go.
    pub closed spec fn distance(self) -> Distance {
        let counts = 3 * (self.order@.len() - self.attempt);
        let regions = 3 * (self.regions@.len() - self.region);
        match self.stage {
            LocateStage::Clock => Distance {
                counts: (counts + 2) as nat,
                regions: 0,
                bytes: 0,
                requests: 0,
            },
            LocateStage::Regions => Distance {
                counts: (counts + 1) as nat,
                regions: 0,
                bytes: 0,
                requests: 0,
            },
            LocateStage::Step => Distance {
                counts: counts as nat,
                regions: (regions + 2) as nat,
                bytes: 0,
                requests: 0,
            },
            LocateStage::Block => Distance {
                counts: counts as nat,
                regions: (regions + 1) as nat,
                bytes: 0,
                requests: 0,
            },
            LocateStage::Check => Distance {
                counts: counts as nat,
                regions: regions as nat,
                bytes: (self.mem@.len() - self.from) as nat,
                requests: self.check.measure(),
            },
            LocateStage::Done => Distance { counts: 0, regions: 0, bytes: 0, requests: 0 },
        }
    }
}

/// Reports the first `n` samples of a candidate.
fn push_samples(notices: &mut Vec<Notice>, samples: &Vec<Sample>, n: usize)
    requires
        n <= samples@.len(),
    ensures
        final(notices)@ == old(notices)@ + sample_notices(samples@, n as int),
{
    assert(notices@ =~= old(notices)@ + sample_notices(samples@, 0));
    for i in 0..n
        invariant
            n <= samples@.len(),
            notices@ == old(notices)@ + sample_notices(samples@, i as int),
    {
        notices.push(Notice::TableSample { sample: samples[i] });
        assert(notices@ =~= old(notices)@ + sample_notices(samples@, i + 1));
    }
}

/// Reports the first `n` candidates.
fn push_candidates(notices: &mut Vec<Notice>, best: &Vec<Candidate>, n: usize)
    requires
        n <= best@.len(),
        forall|i: int|
            0 <= i < best@.len() ==> (#[trigger] best@[i]).finding.score <= HIGHEST_SCORE,
    ensures
        final(notices)@ == old(notices)@ + candidate_notices(candidates(best@), n as int),
{
    assert(notices@ =~= old(notices)@ + candidate_notices(candidates(best@), 0));
    for i in 0..n
        invariant
            n <= best@.len(),
            forall|j: int|
                0 <= j < best@.len() ==> (#[trigger] best@[j]).finding.score <= HIGHEST_SCORE,
            notices@ == old(notices)@ + candidate_notices(candidates(best@), i as int),
    {
        let c = &best[i];
        assert(candidates(best@)[i as int] == c@);
        let shown: usize = if c.finding.samples.len() < 4 {
            c.finding.samples.len()
        } else {
            4
        };
        notices.push(
            Notice::Candidate {
                score: c.finding.score + LAYOUT_BONUS,
                group: c.place.group,
                count: c.place.count,
                field: c.place.field,
                table: c.finding.table,
                validated: c.finding.validated,
            },
        );
        push_samples(notices, &c.finding.samples, shown);
        assert(notices@ =~= old(notices)@ + candidate_notices(candidates(best@), i + 1));
    }
}

/// Whether `d` is within a number of counts and regions.
spec fn within(d: Distance, counts: int, regions: int) -> bool {
    d.counts < counts || d.counts == counts && d.regions <= regions
}

impl Locator {
    /// What does not change while a search goes on.
    spec fn same_search(self, other: Locator) -> bool {
        &&& self.profile == other.profile
        &&& self.pid == other.pid
        &&& self.entered == other.entered
        &&& self.order == other.order
    }

    /// The search for the current number of layers as it is, ended.
    spec fn ended_here(self, stopped: bool) -> SearchEnd {
        SearchEnd { groups: self.found@, hits: self.hits, notices: self.notices@, stopped }
    }

    /// Ends the search with its candidates for the number of layers `matched`.
    fn conclude(&mut self, matched: u32)
        requires
            candidates(old(self).best@) == ranked(old(self).found@),
            forall|i: int|
                0 <= i < old(self).best@.len() ==> (#[trigger] old(self).best@[i]).finding.score
                    <= HIGHEST_SCORE,
        ensures
            final(self).wf(),
            final(self).same_search(*old(self)),
            final(self).distance() == (Distance { counts: 0, regions: 0, bytes: 0, requests: 0 }),
            forall|w: World| #[trigger]
                final(self).expects(w) == concluded(
                    old(self).pid,
                    old(self).entered,
                    CountsEnd {
                        matched,
                        groups: old(self).found@,
                        notices: old(self).notices@,
                    },
                ),
    {
        let ghost best = candidates(self.best@);
        if self.best.len() == 0 {
            self.session = None;
        } else {
            if matched != self.entered {
                self.notices.push(Notice::LockedOnto { matched, entered: self.entered });
            }
            let shown: usize = if self.best.len() < 5 {
                self.best.len()
            } else {
                5
            };
            push_candidates(&mut self.notices, &self.best, shown);
            let c = &self.best[0];
            assert(best[0] == c@);
            let session = Session {
                pid: self.pid,
                layer_count: matched,
                group_address: c.place.group,
                count_address: c.place.count,
                table_pointer_field: c.place.field,
                table_address: c.finding.table,
                score: c.finding.score + LAYOUT_BONUS,
            };
            self.session = Some(session);
            self.notices.push(Notice::SavedSession { session });
        }
        self.stage = LocateStage::Done;
    }

    /// Ends the search for the current number of layers.
    fn end_regions(&mut self)
        requires
            old(self).sound(),
        ensures
            final(self).wf(),
            final(self).same_search(*old(self)),
            final(self).distance().counts < 3 * (old(self).order@.len() - old(self).attempt),
            forall|w: World| #[trigger]
                final(self).expects(w) == old(self).rest(w, old(self).ended_here(false)),
            forall|w: World| #[trigger]
                final(self).expects(w) == old(self).rest(w, old(self).ended_here(true)),
    {
        let ghost start = *self;
        if self.best.len() > 0 {
            proof {
                lemma_ranked_len(self.found@);
            }
            let matched = self.order[self.attempt];
            self.conclude(matched);
        } else {
            proof {
                lemma_ranked_len(self.found@);
            }
            self.attempt = self.attempt + 1;
            if self.attempt < self.order.len() {
                self.stage = LocateStage::Clock;
            } else {
                let entered = self.entered;
                self.conclude(entered);
                assert(start.found@ =~= Seq::<CandidateView>::empty());
            }
        }
    }

    /// Goes on with region `r`.
    fn go_to(&mut self, r: usize)
        requires
            old(self).sound(),
            old(self).found@.len() == 0,
            r <= old(self).regions@.len(),
        ensures
            final(self).wf(),
            final(self).same_search(*old(self)),
            within(
                final(self).distance(),
                3 * (old(self).order@.len() - old(self).attempt),
                3 * (old(self).regions@.len() - r) + 2,
            ),
            forall|w: World| #[trigger]
                final(self).expects(w) == old(self).rest_from(
                    w,
                    r as int,
                    old(self).hits,
                    old(self).notices@,
                ),
    {
        let ghost start = *self;
        self.region = r;
        if r < self.regions.len() {
            self.stage = LocateStage::Step;
        } else {
            let ghost moved = *self;
            self.end_regions();
            assert(start.found@ =~= Seq::<CandidateView>::empty());
            assert forall|w: World| #[trigger] self.expects(w) == start.rest_from(
                w,
                r as int,
                start.hits,
                start.notices@,
            ) by {
                assert(self.expects(w) == moved.rest(w, moved.ended_here(false)));
            }
        }
    }

    /// Goes on in the current region.
    fn seek(&mut self)
        requires
            old(self).sound(),
            old(self).region < old(self).regions@.len(),
            old(self).mem@.len() == old(self).here().size,
            old(self).from <= old(self).mem@.len(),
        ensures
            final(self).wf(),
            final(self).same_search(*old(self)),
            within(
                final(self).distance(),
                3 * (old(self).order@.len() - old(self).attempt),
                3 * (old(self).regions@.len() - old(self).region) - 1,
            ) || {
                let d = final(self).distance();
                &&& d.counts == 3 * (old(self).order@.len() - old(self).attempt)
                &&& d.regions == 3 * (old(self).regions@.len() - old(self).region)
                &&& d.bytes < old(self).mem@.len() - old(self).from
            },
            forall|w: World| #[trigger] final(self).expects(w) == old(self).rest_here(w),
    {
        let ghost start = *self;
        let count = self.order[self.attempt];
        let base = self.regions[self.region].base;
        match seek_next(&self.profile, count, base, &self.mem, self.from, self.hits) {
            SeekStep::End { hits } => {
                self.hits = hits;
                let ghost moved = *self;
                self.leave_region();
                assert forall|w: World| #[trigger] self.expects(w) == start.rest_here(w) by {
                    assert(self.expects(w) == moved.rest_after(w, moved.ended_here(false)));
                    assert(start.region_rest(w) == moved.ended_here(false));
                }
            },
            SeekStep::Stopped { hits } => {
                self.hits = hits;
                self.notices.push(Notice::StoppedAfterHits);
                let ghost moved = *self;
                self.end_regions();
                assert forall|w: World| #[trigger] self.expects(w) == start.rest_here(w) by {
                    assert(self.expects(w) == moved.rest(w, moved.ended_here(true)));
                    assert(start.region_rest(w) == moved.ended_here(true));
                }
            },
            SeekStep::Hit { place, from, hits } => {
                self.hits = hits;
                self.from = from;
                self.place = place;
                self.check = TableCheck::new(self.profile, count, place.field);
                self.stage = LocateStage::Check;
                assert forall|w: World| #[trigger] self.expects(w) == start.rest_here(w) by {
                    assert(self.check.expects(w) == table_found(
                        w,
                        self.profile,
                        count,
                        place.field,
                    ));
                }
            },
        }
    }

    /// Goes on behind the current region, which holds nothing more.
    fn leave_region(&mut self)
        requires
            old(self).sound(),
            old(self).region < old(self).regions@.len(),
        ensures
            final(self).wf(),
            final(self).same_search(*old(self)),
            within(
                final(self).distance(),
                3 * (old(self).order@.len() - old(self).attempt),
                3 * (old(self).regions@.len() - old(self).region) - 1,
            ),
            forall|w: World| #[trigger]
                final(self).expects(w) == old(self).rest_after(w, old(self).ended_here(false)),
    {
        let ghost start = *self;
        proof {
            lemma_ranked_len(self.found@);
        }
        if self.best.len() > 0 {
            self.end_regions();
        } else {
            assert(self.region < self.regions.len());
            let next: usize = self.region + 1;
            self.go_to(next);
        }
    }

    /// Takes an answer on the way to a table.
    fn check_on(&mut self, reply: Reply)
        requires
            old(self).wf(),
            old(self).stage is Check,
            fits(old(self).asks().unwrap(), reply),
        ensures
            final(self).wf(),
            final(self).same_search(*old(self)),
            nearer(final(self).distance(), old(self).distance()),
            forall|w: World|
                answered(w, old(self).asks().unwrap(), reply) ==> #[trigger] final(self).expects(w)
                    == old(self).expects(w),
    {
        let ghost start = *self;
        let ghost asked_for = self.asks().unwrap();
        let ghost given = reply;
        self.check.answer(reply);
        let ghost moved = *self;
        assert forall|w: World| answered(w, asked_for, given) implies start.expects(w)
            == #[trigger] moved.expects(w) by {
            assert(moved.check.expects(w) == start.check.expects(w));
        }
        if self.check.ended() {
            let finding = self.check.finding();
            let ghost seen = viewed(finding);
            if let Some(f) = finding {
                let place = self.place;
                self.notices.push(
                    Notice::LayoutCandidate {
                        group: place.group,
                        count: place.count,
                        table: f.table,
                        validated: f.validated,
                        layers: self.order[self.attempt],
                    },
                );
                let c = Candidate { place, finding: f };
                proof {
                    let more = self.found@.push(c@);
                    assert(more.drop_last() =~= self.found@);
                    self.found@ = more;
                }
                insert_scored(&mut self.best, c);
            }
            let ghost here = *self;
            self.seek();
            assert forall|w: World| #[trigger] self.expects(w) == moved.expects(w) by {
                assert(self.expects(w) == here.rest_here(w));
                assert(moved.check.expects(w) == seen);
            }
        }
    }
}

/// What was found, as a view.
spec fn viewed(f: Option<Finding>) -> Option<FindingView> {
    match f {
        Some(g) => Some(g@),
        None => None,
    }
}

/// As many candidates are ordered as there are.
pub proof fn lemma_ranked_len(s: Seq<CandidateView>)
    ensures
        ranked(s).len() == s.len(),
    decreases s.len(),
{
    if s.len() > 0 {
        lemma_ranked_len(s.drop_last());
        lemma_ranked_with_len(ranked(s.drop_last()), s.last());
    }
}

proof fn lemma_ranked_with_len(s: Seq<CandidateView>, c: CandidateView)
    ensures
        ranked_with(s, c).len() == s.len() + 1,
    decreases s.len(),
{
    if s.len() > 0 {
        lemma_ranked_with_len(s.drop_last(), c);
    }
}

impl Locator {
    /// Takes the seconds since the start.
    fn use_seconds(&mut self, seconds: u64)
        requires
            old(self).wf(),
            old(self).stage is Clock || old(self).stage is Step,
        ensures
            final(self).wf(),
            final(self).same_search(*old(self)),
            nearer(final(self).distance(), old(self).distance()),
            forall|w: World|
                clock_from(w, old(self).asks().unwrap(), seconds) ==> #[trigger] final(
                    self).expects(w) == old(self).expects(w),
    {
        let ghost start = *self;
        match self.stage {
            LocateStage::Clock => {
                if seconds > MOST_SECONDS {
                    self.notices.push(Notice::StoppedAfterSeconds);
                    let entered = self.entered;
                    self.conclude(entered);
                    assert(start.found@ =~= Seq::<CandidateView>::empty());
                } else {
                    let count = self.order[self.attempt];
                    self.notices.push(Notice::ScanningForCount { count });
                    self.stage = LocateStage::Regions;
                }
            },
            _ => {
                if seconds > MOST_SECONDS {
                    self.notices.push(Notice::StoppedAfterSeconds);
                    let ghost moved = *self;
                    self.end_regions();
                    assert(start.found@ =~= Seq::<CandidateView>::empty());
                    assert forall|w: World|
                        clock_from(w, start.asks().unwrap(), seconds) implies #[trigger] self.expects(
                        w,
                    ) == start.expects(w) by {
                        assert(self.expects(w) == moved.rest(w, moved.ended_here(true)));
                    }
                } else {
                    let size = self.regions[self.region].size;
                    if 0 < size && size <= LARGEST_REGION {
                        self.stage = LocateStage::Block;
                    } else {
                        assert(self.region < self.regions.len());
                        let next: usize = self.region + 1;
                        self.go_to(next);
                        assert forall|w: World|
                            clock_from(
                                w,
                                start.asks().unwrap(),
                                seconds,
                            ) implies #[trigger] self.expects(w) == start.expects(w) by {
                            assert(self.expects(w) == start.rest_from(
                                w,
                                start.region + 1,
                                start.hits,
                                start.notices@,
                            ));
                        }
                    }
                }
            },
        }
    }

    /// Takes the bytes of the current region.
    fn use_block(&mut self, bytes: Vec<u8>)
        requires
            old(self).wf(),
            old(self).stage is Block,
        ensures
            final(self).wf(),
            final(self).same_search(*old(self)),
            nearer(final(self).distance(), old(self).distance()),
            forall|w: World|
                bytes@ == (w.read)(old(self).here().base, old(self).here().size)
                    ==> #[trigger] final(self).expects(w) == old(self).expects(w),
    {
        let ghost start = *self;
        if bytes.len() as u64 == self.regions[self.region].size {
            self.mem = bytes;
            self.from = 0;
            let ghost moved = *self;
            self.seek();
            assert(start.found@ =~= Seq::<CandidateView>::empty());
            assert forall|w: World|
                bytes@ == (w.read)(start.here().base, start.here().size) implies #[trigger] self.expects(
                w,
            ) == start.expects(w) by {
                assert(self.expects(w) == moved.rest_here(w));
            }
        } else {
            assert(self.region < self.regions.len());
            let next: usize = self.region + 1;
            self.go_to(next);
            assert forall|w: World|
                bytes@ == (w.read)(start.here().base, start.here().size) implies #[trigger] self.expects(
                w,
            ) == start.expects(w) by {
                assert(self.expects(w) == start.rest_from(
                    w,
                    start.region + 1,
                    start.hits,
                    start.notices@,
                ));
            }
        }
    }

    /// Takes the regions of memory.
    fn use_regions(&mut self, regions: Vec<Region>)
        requires
            old(self).wf(),
            old(self).stage is Regions,
            forall|i: int|
                0 <= i < regions@.len() ==> (#[trigger] regions@[i]).base + regions@[i].size
                    <= u64::MAX,
        ensures
            final(self).wf(),
            final(self).same_search(*old(self)),
            nearer(final(self).distance(), old(self).distance()),
            forall|w: World|
                regions@ == w.regions ==> #[trigger] final(self).expects(w) == old(self).expects(w),
    {
        let ghost start = *self;
        self.regions = regions;
        let ghost moved = *self;
        self.go_to(0);
        assert forall|w: World| regions@ == w.regions implies #[trigger] self.expects(w)
            == start.expects(w) by {
            assert(self.expects(w) == moved.rest_from(w, 0, moved.hits, moved.notices@));
        }
    }

    /// Takes the answer to the request.
    pub fn answer(&mut self, reply: Reply)
        requires
            old(self).wf(),
            old(self).asks() matches Some(request) && fits(request, reply),
        ensures
            final(self).wf(),
            final(self).game() == old(self).game(),
            nearer(final(self).distance(), old(self).distance()),
            forall|w: World|
                answered(w, old(self).asks().unwrap(), reply) ==> #[trigger] final(self).expects(w)
                    == old(self).expects(w),
    {
        match self.stage {
            LocateStage::Check => {
                self.check_on(reply);
            },
            _ => match reply {
                Reply::Seconds(seconds) => {
                    self.use_seconds(seconds);
                },
                Reply::Regions(regions) => {
                    self.use_regions(regions);
                },
                Reply::Blocks(blocks) => {
                    let mut blocks = blocks;
                    assert(blocks@.len() == 1);
                    if let Some(bytes) = blocks.pop() {
                        self.use_block(bytes);
                    }
                },
                _ => {},
            },
        }
    }

    /// The next request; none when the search has ended.
    pub fn request(&self) -> (r: Option<Request>)
        requires
            self.wf(),
        ensures
            asked(r) == self.asks(),
    {
        match self.stage {
            LocateStage::Clock => Some(Request::Clock { attempt: self.attempt as u64, step: 0 }),
            LocateStage::Regions => Some(Request::Regions),
            LocateStage::Step => {
                assert(self.region < self.regions.len());
                Some(
                    Request::Clock { attempt: self.attempt as u64, step: self.region as u64 + 1 },
                )
            },
            LocateStage::Block => {
                let r = &self.regions[self.region];
                Some(read_one(r.base, r.size))
            },
            LocateStage::Check => self.check.request(),
            LocateStage::Done => None,
        }
    }

    /// The profile that the run goes by.
    pub fn profile(&self) -> (r: &GameProfile)
        ensures
            *r == self.game(),
    {
        &self.profile
    }

    /// What was reported so far.
    pub fn notices(&self) -> (r: &Vec<Notice>)
        ensures
            r@ == self.reported(),
    {
        &self.notices
    }

    /// The session that was found.
    pub fn session(&self) -> (r: Option<Session>)
        requires
            self.wf(),
            self.asks() is None,
        ensures
            forall|w: World| #[trigger]
                self.expects(w) == (LocateOutcome { session: r, notices: self.reported() }),
    {
        self.session
    }

    /// A search for a template with `entered` layers in the process `pid`, which
    /// runs the game of the profile.
    pub fn new(profile: GameProfile, pid: u32, entered: u32) -> (r: Locator)
        ensures
            r.wf(),
            r.game() == profile,
            forall|w: World| #[trigger] r.expects(w) == located(w, profile, pid, entered),
    {
        let order = counts_to_try(entered);
        let notices = vec![Notice::AutoLocating { count: entered }];
        assert(notices@ =~= seq![Notice::AutoLocating { count: entered }]);
        let place = Place { group: 0, count: 0, field: 0 };
        let r = Locator {
            profile,
            pid,
            entered,
            order,
            stage: LocateStage::Clock,
            attempt: 0,
            regions: Vec::new(),
            region: 0,
            mem: Vec::new(),
            from: 0,
            hits: 0,
            place,
            check: TableCheck::new(profile, 0, 0),
            found: Ghost(Seq::empty()),
            best: Vec::new(),
            notices,
            session: None,
        };
        assert(candidates(r.best@) =~= ranked(r.found@));
        assert(count_order(entered).len() > 0) by {
            assert(count_if(entered + 1).len() == 1);
        }
        r
    }
}

/// Whether `seconds` is what the clock shows in the world `w`.
pub open spec fn clock_from(w: World, request: RequestView, seconds: u64) -> bool {
    match request {
        RequestView::Clock { attempt, step } => seconds == (w.seconds)(attempt, step),
        _ => false,
    }
}

/// Whether a candidate holds in the world `w`: its addresses are those of one
/// group, and the field points to a table that covers a template of `count`
/// layers.
pub open spec fn holds_in(w: World, p: GameProfile, count: u32, c: CandidateView) -> bool {
    &&& c.place.count - p.livery_count_offset == c.place.group
    &&& c.place.field == plus(c.place.group, p.layer_table_offset)
    &&& table_found(w, p, count, c.place.field) == Some(c.finding)
}

/// Whether every candidate holds in the world `w`.
pub open spec fn all_hold(w: World, p: GameProfile, count: u32, s: Seq<CandidateView>) -> bool {
    forall|i: int| 0 <= i < s.len() ==> holds_in(w, p, count, #[trigger] s[i])
}

proof fn lemma_seek_place(p: GameProfile, count: u32, base: u64, mem: Seq<u8>, from: nat, hits: u32)
    requires
        base + mem.len() <= u64::MAX,
    ensures
        seek(p, count, base, mem, from, hits) matches Seek::Hit { place, from: next, hits: h } ==> {
            &&& place.count - p.livery_count_offset == place.group
            &&& place.field == plus(place.group, p.layer_table_offset)
        },
    decreases mem.len() - from,
{
    lemma_found_from(mem, count_pattern(count), from as int);
    match found_from(mem, count_pattern(count), from as int) {
        Some(pos) => {
            if hits < MOST_HITS && place_at(p, base, pos) is None {
                lemma_seek_place(p, count, base, mem, (pos + 1) as nat, (hits + 1) as u32);
            }
        },
        None => {},
    }
}

proof fn lemma_region_holds(
    w: World,
    p: GameProfile,
    count: u32,
    base: u64,
    mem: Seq<u8>,
    from: nat,
    hits: u32,
    groups: Seq<CandidateView>,
    notices: Seq<Notice>,
)
    requires
        base + mem.len() <= u64::MAX,
        all_hold(w, p, count, groups),
    ensures
        all_hold(
            w,
            p,
            count,
            region_end(w, p, count, base, mem, from, hits, groups, notices).groups,
        ),
    decreases mem.len() - from,
{
    lemma_seek(p, count, base, mem, from, hits);
    lemma_seek_place(p, count, base, mem, from, hits);
    match seek(p, count, base, mem, from, hits) {
        Seek::Hit { place, from: next, hits: h } => {
            match table_found(w, p, count, place.field) {
                None => {
                    lemma_region_holds(w, p, count, base, mem, next, h, groups, notices);
                },
                Some(f) => {
                    let c = CandidateView { place, finding: f };
                    lemma_region_holds(
                        w,
                        p,
                        count,
                        base,
                        mem,
                        next,
                        h,
                        groups.push(c),
                        notices.push(layout_notice(place, f, count)),
                    );
                },
            }
        },
        _ => {},
    }
}

/// Whether no region reaches beyond the end of the address space.
pub open spec fn regions_fit(regions: Seq<Region>) -> bool {
    forall|i: int|
        0 <= i < regions.len() ==> (#[trigger] regions[i]).base + regions[i].size <= u64::MAX
}

proof fn lemma_regions_hold(
    w: World,
    p: GameProfile,
    count: u32,
    attempt: int,
    regions: Seq<Region>,
    r: int,
    hits: u32,
    notices: Seq<Notice>,
)
    requires
        regions_fit(regions),
        0 <= r,
    ensures
        all_hold(
            w,
            p,
            count,
            regions_end(w, p, count, attempt, regions, r, hits, notices).groups,
        ),
    decreases regions.len() - r,
{
    if r < regions.len() && (w.seconds)(attempt as u64, (r + 1) as u64) <= MOST_SECONDS {
        let mem = (w.read)(regions[r].base, regions[r].size);
        let e = block_end(w, p, count, regions[r], mem, hits, notices);
        if searched_size(regions[r].size) && mem.len() == regions[r].size {
            lemma_region_holds(
                w,
                p,
                count,
                regions[r].base,
                mem,
                0,
                hits,
                Seq::empty(),
                notices,
            );
        }
        if !(e.stopped || e.groups.len() > 0) {
            lemma_regions_hold(w, p, count, attempt, regions, r + 1, e.hits, e.notices);
        }
    }
}

proof fn lemma_counts_hold(
    w: World,
    p: GameProfile,
    entered: u32,
    order: Seq<u32>,
    a: int,
    hits: u32,
    notices: Seq<Notice>,
)
    requires
        regions_fit(w.regions),
        0 <= a,
    ensures
        ({
            let e = counts_end(w, p, entered, order, a, hits, notices);
            e.groups.len() > 0 ==> order.contains(e.matched) && all_hold(
                w,
                p,
                e.matched,
                e.groups,
            )
        }),
    decreases order.len() - a,
{
    if a < order.len() && (w.seconds)(a as u64, 0) <= MOST_SECONDS {
        let more = notices.push(Notice::ScanningForCount { count: order[a] });
        let e = regions_end(w, p, order[a], a, w.regions, 0, hits, more);
        lemma_regions_hold(w, p, order[a], a, w.regions, 0, hits, more);
        if e.groups.len() == 0 {
            lemma_counts_hold(w, p, entered, order, a + 1, e.hits, e.notices);
        }
    }
}

/// Whether the scores of candidates do not rise.
pub open spec fn ordered(s: Seq<CandidateView>) -> bool {
    forall|i: int, j: int|
        0 <= i < j < s.len() ==> (#[trigger] s[i]).finding.score >= (#[trigger] s[j]).finding.score
}

proof fn lemma_insertion(s: Seq<CandidateView>, c: CandidateView)
    requires
        ordered(s),
    ensures
        ordered(ranked_with(s, c)),
        ranked_with(s, c).len() == s.len() + 1,
        ranked_with(s, c).to_multiset() == s.to_multiset().insert(c),
        forall|x: CandidateView|
            ranked_with(s, c).contains(x) ==> s.contains(x) || x == c,
    decreases s.len(),
{
    broadcast use vstd::seq_lib::group_to_multiset_ensures;

    if s.len() == 0 || s.last().finding.score >= c.finding.score {
        assert forall|x: CandidateView| s.push(c).contains(x) implies s.contains(x) || x == c by {
            let k = s.push(c).index_of(x);
            if k < s.len() {
                assert(s[k] == x);
            }
        }
    } else {
        let front = s.drop_last();
        lemma_insertion(front, c);
        let r = ranked_with(front, c);
        assert(s =~= front.push(s.last()));
        assert forall|x: CandidateView| r.push(s.last()).contains(x) implies s.contains(x) || x
            == c by {
            let k = r.push(s.last()).index_of(x);
            if k < r.len() {
                assert(r[k] == x);
                assert(r.contains(x));
                if front.contains(x) {
                    let m = front.index_of(x);
                    assert(s[m] == x);
                }
            } else {
                assert(s[s.len() - 1] == x);
            }
        }
        assert forall|i: int, j: int| 0 <= i < j < r.push(s.last()).len() implies (
        #[trigger] r.push(s.last())[i]).finding.score >= (
        #[trigger] r.push(s.last())[j]).finding.score by {
            if j == r.len() {
                let x = r[i];
                assert(r.contains(x));
                if front.contains(x) {
                    let m = front.index_of(x);
                    assert(s[m] == x);
                }
            }
        }
        assert(r.push(s.last()).to_multiset() =~= s.to_multiset().insert(c));
    }
}

/// The order of the candidates keeps each of them and puts none before one with a
/// higher score.
pub proof fn law_ranking_orders_candidates(s: Seq<CandidateView>)
    ensures
        ordered(ranked(s)),
        ranked(s).to_multiset() == s.to_multiset(),
        ranked(s).len() == s.len(),
        forall|x: CandidateView| #[trigger] ranked(s).contains(x) ==> s.contains(x),
    decreases s.len(),
{
    broadcast use vstd::seq_lib::group_to_multiset_ensures;

    if s.len() > 0 {
        let front = s.drop_last();
        law_ranking_orders_candidates(front);
        lemma_insertion(ranked(front), s.last());
        assert(s =~= front.push(s.last()));
        assert forall|x: CandidateView| #[trigger] ranked(s).contains(x) implies s.contains(x) by {
            if ranked(front).contains(x) {
                assert(front.contains(x));
                let m = front.index_of(x);
                assert(s[m] == x);
            } else {
                assert(s[s.len() - 1] == x);
            }
        }
    } else {
        assert(ranked(s) =~= s);
    }
}

/// A session holds: it names one group of layers, whose number is one that was
/// searched for and at most three off what the user entered, and the group points
/// to a table that covers a template of that many layers.
pub proof fn law_session_is_validated(w: World, p: GameProfile, pid: u32, entered: u32)
    requires
        regions_fit(w.regions),
    ensures
        located(w, p, pid, entered).session matches Some(s) ==> {
            &&& s.pid == pid
            &&& count_order(entered).contains(s.layer_count)
            &&& entered <= u32::MAX - 3 ==> 1 <= s.layer_count && -3 <= s.layer_count - entered <= 3
            &&& s.count_address - p.livery_count_offset == s.group_address
            &&& s.table_pointer_field == plus(s.group_address, p.layer_table_offset)
            &&& s.table_address == w.u64_at(s.table_pointer_field)
            &&& table_found(w, p, s.layer_count, s.table_pointer_field) matches Some(f)
            &&& f.table == s.table_address
            &&& s.score == (f.score + LAYOUT_BONUS) as i64
        },
{
    let order = count_order(entered);
    let start = seq![Notice::AutoLocating { count: entered }];
    let e = counts_end(w, p, entered, order, 0, 0, start);
    lemma_counts_hold(w, p, entered, order, 0, 0, start);
    law_ranking_orders_candidates(e.groups);
    if ranked(e.groups).len() > 0 {
        let c = ranked(e.groups)[0];
        assert(ranked(e.groups).contains(c));
        let k = e.groups.index_of(c);
        assert(holds_in(w, p, e.matched, e.groups[k]));
        law_found_table_covers_template(w, p, e.matched, c.place.field);
        let m = order.index_of(e.matched);
        if entered <= u32::MAX - 3 {
            lemma_count_order(entered, m);
        }
    }
}

/// What is searched for lies close to what the user entered.
proof fn lemma_count_order(entered: u32, m: int)
    requires
        0 <= m < count_order(entered).len(),
        entered <= u32::MAX - 3,
    ensures
        1 <= count_order(entered)[m],
        -3 <= count_order(entered)[m] - entered <= 3,
{
    let n = entered as int;
    assert forall|k: int| -3 <= k <= 3 && n + k >= 1 implies (#[trigger] (n + k))
        % 0x1_0000_0000 == n + k by {
    }
}

/// The search of a region keeps what was reported before.
proof fn lemma_region_reports(
    w: World,
    p: GameProfile,
    count: u32,
    base: u64,
    mem: Seq<u8>,
    from: nat,
    hits: u32,
    groups: Seq<CandidateView>,
    notices: Seq<Notice>,
)
    ensures
        begins(
            notices,
            region_end(w, p, count, base, mem, from, hits, groups, notices).notices,
        ),
    decreases mem.len() - from,
{
    broadcast use group_begins;

    let all = region_end(w, p, count, base, mem, from, hits, groups, notices).notices;
    lemma_seek(p, count, base, mem, from, hits);
    if let Seek::Hit { place, from: next, hits: h } = seek(p, count, base, mem, from, hits) {
        match table_found(w, p, count, place.field) {
            None => {
                lemma_region_reports(w, p, count, base, mem, next, h, groups, notices);
            },
            Some(f) => {
                let more = notices.push(layout_notice(place, f, count));
                lemma_region_reports(
                    w,
                    p,
                    count,
                    base,
                    mem,
                    next,
                    h,
                    groups.push(CandidateView { place, finding: f }),
                    more,
                );
                lemma_begins_chain(notices, more, all);
            },
        }
    }
}

/// The search of one region keeps what was reported before.
proof fn lemma_block_reports(
    w: World,
    p: GameProfile,
    count: u32,
    region: Region,
    mem: Seq<u8>,
    hits: u32,
    notices: Seq<Notice>,
)
    ensures
        begins(notices, block_end(w, p, count, region, mem, hits, notices).notices),
{
    broadcast use group_begins;

    lemma_region_reports(w, p, count, region.base, mem, 0, hits, Seq::empty(), notices);
}

/// The search of the regions keeps what was reported before.
proof fn lemma_regions_report(
    w: World,
    p: GameProfile,
    count: u32,
    attempt: int,
    regions: Seq<Region>,
    r: int,
    hits: u32,
    notices: Seq<Notice>,
)
    ensures
        begins(
            notices,
            regions_end(w, p, count, attempt, regions, r, hits, notices).notices,
        ),
    decreases regions.len() - r,
{
    broadcast use group_begins;

    if r < regions.len() && (w.seconds)(attempt as u64, (r + 1) as u64) <= MOST_SECONDS {
        let mem = (w.read)(regions[r].base, regions[r].size);
        let e = block_end(w, p, count, regions[r], mem, hits, notices);
        let rest = regions_end(w, p, count, attempt, regions, r + 1, e.hits, e.notices);
        lemma_block_reports(w, p, count, regions[r], mem, hits, notices);
        lemma_regions_report(w, p, count, attempt, regions, r + 1, e.hits, e.notices);
        lemma_begins_chain(notices, e.notices, rest.notices);
    }
}

/// The search for the numbers of layers keeps what was reported before.
proof fn lemma_counts_report(
    w: World,
    p: GameProfile,
    entered: u32,
    order: Seq<u32>,
    a: int,
    hits: u32,
    notices: Seq<Notice>,
)
    ensures
        begins(notices, counts_end(w, p, entered, order, a, hits, notices).notices),
    decreases order.len() - a,
{
    broadcast use group_begins;

    if a < order.len() && (w.seconds)(a as u64, 0) <= MOST_SECONDS {
        let more = notices.push(Notice::ScanningForCount { count: order[a] });
        let e = regions_end(w, p, order[a], a, w.regions, 0, hits, more);
        let rest = counts_end(w, p, entered, order, a + 1, e.hits, e.notices);
        lemma_regions_report(w, p, order[a], a, w.regions, 0, hits, more);
        lemma_begins_chain(notices, more, e.notices);
        lemma_counts_report(w, p, entered, order, a + 1, e.hits, e.notices);
        lemma_begins_chain(notices, e.notices, rest.notices);
    }
}

/// The end of a search keeps what was reported before.
proof fn lemma_concluded_reports(pid: u32, entered: u32, e: CountsEnd)
    ensures
        begins(e.notices, concluded(pid, entered, e).notices),
{
    broadcast use group_begins;

    let locked = e.notices.push(Notice::LockedOnto { matched: e.matched, entered });
    assert(begins(e.notices, locked));
    let best = ranked(e.groups);
    let shown = if best.len() < 5 {
        best.len() as int
    } else {
        5
    };
    let listed = candidate_notices(best, shown);
    assert(begins(e.notices, e.notices + listed));
    assert(begins(e.notices, locked + listed));
}

impl Locator {
    /// The rest of the search keeps what was reported when that for the current
    /// number of layers ended.
    proof fn lemma_rest_reports(self, w: World, e: SearchEnd)
        ensures
            begins(e.notices, self.rest(w, e).notices),
    {
        broadcast use group_begins;

        let a = self.attempt as int;
        let order = self.order@;
        lemma_counts_report(w, self.profile, self.entered, order, a + 1, e.hits, e.notices);
        let ended = after_regions(w, self.profile, self.entered, order, a, e);
        assert(begins(e.notices, ended.notices));
        lemma_concluded_reports(self.pid, self.entered, ended);
        lemma_begins_chain(e.notices, ended.notices, self.rest(w, e).notices);
    }

    /// The rest of the search keeps what was reported when that of the current
    /// region ended.
    proof fn lemma_rest_after_reports(self, w: World, e: SearchEnd)
        ensures
            begins(e.notices, self.rest_after(w, e).notices),
    {
        self.lemma_rest_reports(w, e);
        self.lemma_rest_from_reports(w, self.region + 1, e.hits, e.notices);
    }

    /// The search from a region on keeps what was reported before.
    proof fn lemma_rest_from_reports(self, w: World, r: int, hits: u32, notices: Seq<Notice>)
        ensures
            begins(notices, self.rest_from(w, r, hits, notices).notices),
    {
        let attempt = self.attempt as int;
        let e = regions_end(
            w,
            self.profile,
            self.count(),
            attempt,
            self.regions@,
            r,
            hits,
            notices,
        );
        lemma_regions_report(
            w,
            self.profile,
            self.count(),
            attempt,
            self.regions@,
            r,
            hits,
            notices,
        );
        self.lemma_rest_reports(w, e);
        lemma_begins_chain(notices, e.notices, self.rest(w, e).notices);
    }

    /// What was reported so far is the start of what is reported in the end, whatever
    /// the answers are from now on.
    pub proof fn law_reports_are_final(self, w: World)
        requires
            self.wf(),
        ensures
            begins(self.reported(), self.expects(w).notices),
    {
        broadcast use group_begins;

        let p = self.profile;
        let notices = self.notices@;
        let attempt = self.attempt as int;
        match self.stage {
            LocateStage::Clock => {
                let order = self.order@;
                let ended = counts_end(w, p, self.entered, order, attempt, self.hits, notices);
                lemma_counts_report(w, p, self.entered, order, attempt, self.hits, notices);
                lemma_concluded_reports(self.pid, self.entered, ended);
                lemma_begins_chain(notices, ended.notices, self.expects(w).notices);
            },
            LocateStage::Regions => {
                let e = regions_end(
                    w,
                    p,
                    self.count(),
                    attempt,
                    w.regions,
                    0,
                    self.hits,
                    notices,
                );
                lemma_regions_report(
                    w,
                    p,
                    self.count(),
                    attempt,
                    w.regions,
                    0,
                    self.hits,
                    notices,
                );
                self.lemma_rest_reports(w, e);
                lemma_begins_chain(notices, e.notices, self.expects(w).notices);
            },
            LocateStage::Step => {
                self.lemma_rest_from_reports(w, self.region as int, self.hits, notices);
            },
            LocateStage::Block => {
                let here = self.here();
                let mem = (w.read)(here.base, here.size);
                lemma_block_reports(w, p, self.count(), here, mem, self.hits, notices);
                let e = block_end(w, p, self.count(), here, mem, self.hits, notices);
                self.lemma_rest_after_reports(w, e);
                lemma_begins_chain(notices, e.notices, self.expects(w).notices);
            },
            LocateStage::Check => {
                let found = self.check.expects(w);
                let base = self.here().base;
                let from = self.from as nat;
                let e = after_check(
                    w,
                    p,
                    self.count(),
                    base,
                    self.mem@,
                    from,
                    self.hits,
                    self.found@,
                    notices,
                    self.place,
                    found,
                );
                match found {
                    None => {
                        lemma_region_reports(
                            w,
                            p,
                            self.count(),
                            base,
                            self.mem@,
                            from,
                            self.hits,
                            self.found@,
                            notices,
                        );
                    },
                    Some(f) => {
                        let more = notices.push(layout_notice(self.place, f, self.count()));
                        lemma_region_reports(
                            w,
                            p,
                            self.count(),
                            base,
                            self.mem@,
                            from,
                            self.hits,
                            self.found@.push(CandidateView { place: self.place, finding: f }),
                            more,
                        );
                        lemma_begins_chain(notices, more, e.notices);
                    },
                }
                self.lemma_rest_after_reports(w, e);
                lemma_begins_chain(notices, e.notices, self.expects(w).notices);
            },
            LocateStage::Done => {},
        }
    }

    /// A search asks for no write.
    pub proof fn law_search_only_reads(self)
        ensures
            self.asks() matches Some(request) ==> !(request is Write),
    {
        self.check.law_check_only_reads();
    }
}

/// What stands at position `pos` of a region: the number of layers with a group around
/// it that points to a table of such a template. Nothing in a region that is not
/// searched.
pub open spec fn candidate_at(
    w: World,
    p: GameProfile,
    count: u32,
    region: Region,
    pos: int,
) -> Option<CandidateView> {
    let mem = (w.read)(region.base, region.size);
    if searched_size(region.size) && mem.len() == region.size && occurs_at(
        mem,
        count_pattern(count),
        pos,
    ) {
        match place_at(p, region.base, pos) {
            Some(place) => match table_found(w, p, count, place.field) {
                Some(f) => Some(CandidateView { place, finding: f }),
                None => None,
            },
            None => None,
        }
    } else {
        None
    }
}

/// Whether `c` is a candidate of a region.
pub open spec fn candidate_of(
    w: World,
    p: GameProfile,
    count: u32,
    region: Region,
    c: CandidateView,
) -> bool {
    candidate_at(w, p, count, region, c.place.count - region.base) == Some(c)
}

/// Whether a region has no candidate.
pub open spec fn barren(w: World, p: GameProfile, count: u32, region: Region) -> bool {
    forall|c: CandidateView| !#[trigger] candidate_of(w, p, count, region, c)
}

/// Whether `groups` are candidates of a region, in the order of their addresses.
pub open spec fn from_region(
    w: World,
    p: GameProfile,
    count: u32,
    region: Region,
    groups: Seq<CandidateView>,
) -> bool {
    &&& forall|i: int|
        0 <= i < groups.len() ==> candidate_of(w, p, count, region, #[trigger] groups[i])
    &&& forall|i: int, j: int|
        0 <= i < j < groups.len() ==> (#[trigger] groups[i]).place.count < (
        #[trigger] groups[j]).place.count
}

/// Whether `groups` are all of the candidates of a region before position `from`.
spec fn all_before(
    w: World,
    p: GameProfile,
    count: u32,
    region: Region,
    from: int,
    groups: Seq<CandidateView>,
) -> bool {
    forall|c: CandidateView| #[trigger]
        candidate_of(w, p, count, region, c) && c.place.count - region.base < from
            ==> groups.contains(c)
}

/// What is passed over on the way to the next group, and where that stands.
proof fn lemma_seek_skips(
    p: GameProfile,
    count: u32,
    base: u64,
    mem: Seq<u8>,
    from: nat,
    hits: u32,
)
    ensures
        match seek(p, count, base, mem, from, hits) {
            Seek::End { hits: h } => forall|pos: int|
                from <= pos && #[trigger] occurs_at(mem, count_pattern(count), pos) ==> place_at(
                    p,
                    base,
                    pos,
                ) is None,
            Seek::Stopped { hits: h } => h >= MOST_HITS,
            Seek::Hit { place, from: next, hits: h } => {
                &&& hits < MOST_HITS
                &&& from < next <= mem.len()
                &&& occurs_at(mem, count_pattern(count), next - 1)
                &&& place_at(p, base, next - 1) == Some(place)
                &&& forall|pos: int|
                    from <= pos < next - 1 && #[trigger] occurs_at(mem, count_pattern(count), pos)
                        ==> place_at(p, base, pos) is None
            },
        },
    decreases mem.len() - from,
{
    lemma_found_from(mem, count_pattern(count), from as int);
    match found_from(mem, count_pattern(count), from as int) {
        Some(pos) => {
            if hits < MOST_HITS && place_at(p, base, pos) is None {
                lemma_seek_skips(p, count, base, mem, (pos + 1) as nat, (hits + 1) as u32);
            }
        },
        None => {},
    }
}

/// The search of a region gathers its candidates in the order of their addresses, all of
/// them unless it stops, and says so where it does.
proof fn lemma_region_gathers(
    w: World,
    p: GameProfile,
    count: u32,
    region: Region,
    from: nat,
    hits: u32,
    groups: Seq<CandidateView>,
    notices: Seq<Notice>,
)
    requires
        searched_size(region.size),
        (w.read)(region.base, region.size).len() == region.size,
        region.base + region.size <= u64::MAX,
        from_region(w, p, count, region, groups),
        all_before(w, p, count, region, from as int, groups),
        forall|i: int|
            0 <= i < groups.len() ==> (#[trigger] groups[i]).place.count - region.base < from,
    ensures
        ({
            let e = region_end(
                w,
                p,
                count,
                region.base,
                (w.read)(region.base, region.size),
                from,
                hits,
                groups,
                notices,
            );
            &&& from_region(w, p, count, region, e.groups)
            &&& !e.stopped ==> all_before(w, p, count, region, region.size as int, e.groups)
            &&& e.stopped ==> e.notices.contains(Notice::StoppedAfterHits) && e.hits >= MOST_HITS
            &&& hits >= MOST_HITS ==> e.groups == groups && e.hits >= MOST_HITS
        }),
    decreases (w.read)(region.base, region.size).len() - from,
{
    let base = region.base;
    let mem = (w.read)(region.base, region.size);
    lemma_seek_skips(p, count, base, mem, from, hits);
    match seek(p, count, base, mem, from, hits) {
        Seek::End { hits: h } => {
            assert forall|c: CandidateView| #[trigger]
                candidate_of(w, p, count, region, c) implies groups.contains(c) by {
                let pos = c.place.count - base;
                assert(occurs_at(mem, count_pattern(count), pos));
            }
        },
        Seek::Stopped { hits: h } => {
            let more = notices.push(Notice::StoppedAfterHits);
            assert(more[notices.len() as int] == Notice::StoppedAfterHits);
        },
        Seek::Hit { place, from: next, hits: h } => {
            assert(place.count == base + (next - 1));
            let found = table_found(w, p, count, place.field);
            assert(candidate_at(w, p, count, region, next - 1) == (match found {
                Some(f) => Some(CandidateView { place, finding: f }),
                None => None,
            }));
            assert forall|c: CandidateView| #[trigger]
                candidate_of(w, p, count, region, c) && c.place.count - base < next implies (
            groups.contains(c) || (found matches Some(f) && c == (CandidateView {
                place,
                finding: f,
            }))) by {
                let pos = c.place.count - base;
                assert(occurs_at(mem, count_pattern(count), pos));
                if pos >= from {
                    assert(pos == next - 1);
                }
            }
            match found {
                None => {
                    lemma_region_gathers(w, p, count, region, next, h, groups, notices);
                },
                Some(f) => {
                    let c = CandidateView { place, finding: f };
                    let more = groups.push(c);
                    assert(candidate_of(w, p, count, region, c));
                    assert forall|d: CandidateView| #[trigger]
                        candidate_of(w, p, count, region, d) && d.place.count - base
                            < next implies more.contains(d) by {
                        if groups.contains(d) {
                            assert(more[groups.index_of(d)] == d);
                        } else {
                            assert(more[groups.len() as int] == d);
                        }
                    }
                    lemma_region_gathers(
                        w,
                        p,
                        count,
                        region,
                        next,
                        h,
                        more,
                        notices.push(layout_notice(place, f, count)),
                    );
                },
            }
        },
    }
}

/// Whether no limit ended a search, by its report.
pub open spec fn unlimited(notices: Seq<Notice>) -> bool {
    !notices.contains(Notice::StoppedAfterHits) && !notices.contains(Notice::StoppedAfterSeconds)
}

/// What the beginning of a report says of limits, the report says.
proof fn lemma_limits_stay(a: Seq<Notice>, b: Seq<Notice>)
    requires
        begins(a, b),
    ensures
        a.contains(Notice::StoppedAfterHits) ==> b.contains(Notice::StoppedAfterHits),
        a.contains(Notice::StoppedAfterSeconds) ==> b.contains(Notice::StoppedAfterSeconds),
{
    reveal(begins);
    assert(a =~= b.subrange(0, a.len() as int));
    assert forall|n: Notice| a.contains(n) implies b.contains(n) by {
        let k = a.index_of(n);
        assert(b.subrange(0, a.len() as int)[k] == n);
        assert(b[k] == n);
    }
}

/// The search of one region: its candidates, all of them where no limit ended it.
proof fn lemma_block_gathers(
    w: World,
    p: GameProfile,
    count: u32,
    region: Region,
    hits: u32,
    notices: Seq<Notice>,
)
    requires
        region.base + region.size <= u64::MAX,
    ensures
        ({
            let e = block_end(
                w,
                p,
                count,
                region,
                (w.read)(region.base, region.size),
                hits,
                notices,
            );
            &&& from_region(w, p, count, region, e.groups)
            &&& e.stopped ==> e.notices.contains(Notice::StoppedAfterHits) && e.hits >= MOST_HITS
            &&& hits >= MOST_HITS ==> e.groups.len() == 0 && e.hits >= MOST_HITS
            &&& !e.stopped ==> forall|c: CandidateView| #[trigger]
                candidate_of(w, p, count, region, c) ==> e.groups.contains(c)
        }),
{
    let mem = (w.read)(region.base, region.size);
    let none = Seq::<CandidateView>::empty();
    if searched_size(region.size) && mem.len() == region.size {
        assert forall|c: CandidateView| #[trigger]
            candidate_of(w, p, count, region, c) implies 0 <= c.place.count - region.base
            < region.size by {
            assert(occurs_at(mem, count_pattern(count), c.place.count - region.base));
        }
        lemma_region_gathers(w, p, count, region, 0, hits, none, notices);
    }
}

/// Whether region `k` of `regions` is the first from `r` on that has candidates, and
/// `groups` are candidates of it, where it is complete all of them.
spec fn first_yield(
    w: World,
    p: GameProfile,
    count: u32,
    regions: Seq<Region>,
    r: int,
    k: int,
    groups: Seq<CandidateView>,
    complete: bool,
) -> bool {
    &&& r <= k < regions.len()
    &&& from_region(w, p, count, regions[k], groups)
    &&& complete ==> forall|c: CandidateView| #[trigger]
        candidate_of(w, p, count, regions[k], c) ==> groups.contains(c)
    &&& forall|i: int| r <= i < k ==> barren(w, p, count, #[trigger] regions[i])
}

/// Which region the candidates of a search of the regions come from.
proof fn lemma_regions_gather(
    w: World,
    p: GameProfile,
    count: u32,
    attempt: int,
    regions: Seq<Region>,
    r: int,
    hits: u32,
    notices: Seq<Notice>,
) -> (k: int)
    requires
        regions_fit(regions),
        0 <= r,
    ensures
        ({
            let e = regions_end(w, p, count, attempt, regions, r, hits, notices);
            &&& e.groups.len() > 0 ==> first_yield(
                w,
                p,
                count,
                regions,
                r,
                k,
                e.groups,
                !e.notices.contains(Notice::StoppedAfterHits),
            )
            &&& e.groups.len() == 0 ==> {
                ||| e.hits >= MOST_HITS && e.notices.contains(Notice::StoppedAfterHits)
                ||| e.notices.contains(Notice::StoppedAfterSeconds)
                ||| forall|i: int|
                    r <= i < regions.len() ==> barren(w, p, count, #[trigger] regions[i])
            }
            &&& hits >= MOST_HITS ==> e.groups.len() == 0 && e.hits >= MOST_HITS
        }),
    decreases regions.len() - r,
{
    if r >= regions.len() {
        r
    } else if (w.seconds)(attempt as u64, (r + 1) as u64) > MOST_SECONDS {
        let more = notices.push(Notice::StoppedAfterSeconds);
        assert(more[notices.len() as int] == Notice::StoppedAfterSeconds);
        r
    } else {
        let region = regions[r];
        let mem = (w.read)(region.base, region.size);
        let e = block_end(w, p, count, region, mem, hits, notices);
        lemma_block_gathers(w, p, count, region, hits, notices);
        if e.stopped || e.groups.len() > 0 {
            r
        } else {
            let rest = regions_end(w, p, count, attempt, regions, r + 1, e.hits, e.notices);
            let k = lemma_regions_gather(
                w,
                p,
                count,
                attempt,
                regions,
                r + 1,
                e.hits,
                e.notices,
            );
            assert(barren(w, p, count, region)) by {
                assert forall|c: CandidateView| !#[trigger] candidate_of(w, p, count, region, c) by {
                    if candidate_of(w, p, count, region, c) {
                        assert(e.groups.contains(c));
                    }
                }
            }
            k
        }
    }
}

/// Whether no region of the world has a candidate for a number of layers.
pub open spec fn no_group(w: World, p: GameProfile, count: u32) -> bool {
    forall|i: int| 0 <= i < w.regions.len() ==> barren(w, p, count, #[trigger] w.regions[i])
}

/// Which number of layers and which region the candidates of a search come from.
proof fn lemma_counts_gather(
    w: World,
    p: GameProfile,
    entered: u32,
    order: Seq<u32>,
    a: int,
    hits: u32,
    notices: Seq<Notice>,
) -> (pick: (int, int))
    requires
        regions_fit(w.regions),
        0 <= a,
    ensures
        ({
            let e = counts_end(w, p, entered, order, a, hits, notices);
            &&& e.groups.len() > 0 ==> {
                &&& hits < MOST_HITS
                &&& a <= pick.0 < order.len()
                &&& e.matched == order[pick.0]
                &&& first_yield(
                    w,
                    p,
                    e.matched,
                    w.regions,
                    0,
                    pick.1,
                    e.groups,
                    !e.notices.contains(Notice::StoppedAfterHits),
                )
                &&& !e.notices.contains(Notice::StoppedAfterSeconds) ==> forall|i: int|
                    a <= i < pick.0 ==> no_group(w, p, #[trigger] order[i])
            }
            &&& e.groups.len() == 0 && unlimited(e.notices) ==> forall|i: int|
                a <= i < order.len() ==> no_group(w, p, #[trigger] order[i])
        }),
    decreases order.len() - a,
{
    if a >= order.len() {
        (a, 0)
    } else if (w.seconds)(a as u64, 0) > MOST_SECONDS {
        let more = notices.push(Notice::StoppedAfterSeconds);
        assert(more[notices.len() as int] == Notice::StoppedAfterSeconds);
        (a, 0)
    } else {
        let more = notices.push(Notice::ScanningForCount { count: order[a] });
        let e = regions_end(w, p, order[a], a, w.regions, 0, hits, more);
        let k = lemma_regions_gather(w, p, order[a], a, w.regions, 0, hits, more);
        if e.groups.len() > 0 {
            (a, k)
        } else {
            let end = counts_end(w, p, entered, order, a + 1, e.hits, e.notices);
            let pick = lemma_counts_gather(w, p, entered, order, a + 1, e.hits, e.notices);
            lemma_counts_report(w, p, entered, order, a + 1, e.hits, e.notices);
            lemma_limits_stay(e.notices, end.notices);
            pick
        }
    }
}

/// Which candidate comes first when one more takes its place.
proof fn lemma_first_ranked_with(s: Seq<CandidateView>, c: CandidateView)
    requires
        ordered(s),
    ensures
        ranked_with(s, c).len() > 0,
        ranked_with(s, c)[0] == (if s.len() > 0 && s[0].finding.score >= c.finding.score {
            s[0]
        } else {
            c
        }),
    decreases s.len(),
{
    if s.len() == 0 {
    } else if s.last().finding.score >= c.finding.score {
        if s.len() > 1 {
            assert(s[0].finding.score >= s[s.len() - 1].finding.score);
        }
    } else {
        lemma_first_ranked_with(s.drop_last(), c);
    }
}

/// The first of the ordered candidates is the earliest of those with the highest score.
proof fn lemma_first_ranked(s: Seq<CandidateView>) -> (k: int)
    requires
        s.len() > 0,
    ensures
        0 <= k < s.len(),
        ranked(s).len() > 0,
        ranked(s)[0] == s[k],
        forall|j: int|
            0 <= j < s.len() ==> (#[trigger] s[j]).finding.score <= s[k].finding.score && (j < k
                ==> s[j].finding.score < s[k].finding.score),
    decreases s.len(),
{
    let front = s.drop_last();
    law_ranking_orders_candidates(front);
    lemma_first_ranked_with(ranked(front), s.last());
    if front.len() == 0 {
        lemma_ranked_len(front);
        0
    } else {
        let k = lemma_first_ranked(front);
        assert forall|j: int| 0 <= j < front.len() implies front[j] == s[j] by {}
        if s[k].finding.score >= s.last().finding.score {
            assert forall|j: int| 0 <= j < s.len() implies (#[trigger] s[j]).finding.score
                <= s[k].finding.score && (j < k ==> s[j].finding.score < s[k].finding.score) by {
                if j < front.len() {
                    assert(front[j] == s[j]);
                }
            }
            k
        } else {
            assert forall|j: int| 0 <= j < s.len() - 1 implies (#[trigger] s[j]).finding.score
                < s.last().finding.score by {
                assert(front[j] == s[j]);
            }
            s.len() - 1
        }
    }
}

/// Whether a session is that of the candidate `c` of region `r`.
pub open spec fn session_in_region(
    w: World,
    p: GameProfile,
    s: Session,
    r: int,
    c: CandidateView,
) -> bool {
    &&& 0 <= r < w.regions.len()
    &&& candidate_of(w, p, s.layer_count, w.regions[r], c)
    &&& s == session_of(s.pid, s.layer_count, c)
}

/// Whether no other candidate of a region is better than `c`: none has a higher score,
/// and none with the same score has a lower address.
pub open spec fn best_of_region(
    w: World,
    p: GameProfile,
    count: u32,
    region: Region,
    c: CandidateView,
) -> bool {
    forall|d: CandidateView| #[trigger]
        candidate_of(w, p, count, region, d) ==> d.finding.score < c.finding.score || (
        d.finding.score == c.finding.score && c.place.count <= d.place.count)
}

/// Whether a session is that of the candidate `c` of region `r` for number `a` of those
/// that are tried, and no region before it has a candidate for that number.
pub open spec fn first_with_group(
    w: World,
    p: GameProfile,
    entered: u32,
    s: Session,
    a: int,
    r: int,
    c: CandidateView,
) -> bool {
    &&& 0 <= a < count_order(entered).len()
    &&& s.layer_count == count_order(entered)[a]
    &&& session_in_region(w, p, s, r, c)
    &&& forall|i: int| 0 <= i < r ==> barren(w, p, s.layer_count, #[trigger] w.regions[i])
}

/// Whether no number that is tried before number `a` has a group anywhere.
pub open spec fn none_before(w: World, p: GameProfile, entered: u32, a: int) -> bool {
    forall|i: int| 0 <= i < a ==> no_group(w, p, #[trigger] count_order(entered)[i])
}

/// Whether the session of a search is that of the candidate `c` of region `r` for number
/// `a` of those that are tried: the first region with a group for that number, the best
/// group of it unless the search stopped after many hits, and the first number with a
/// group unless time ended a search.
pub open spec fn found_in_order(
    w: World,
    p: GameProfile,
    pid: u32,
    entered: u32,
    a: int,
    r: int,
    c: CandidateView,
) -> bool {
    let end = located(w, p, pid, entered);
    &&& end.session matches Some(s)
    &&& first_with_group(w, p, entered, s, a, r, c)
    &&& !end.notices.contains(Notice::StoppedAfterHits) ==> best_of_region(
        w,
        p,
        s.layer_count,
        w.regions[r],
        c,
    )
    &&& !end.notices.contains(Notice::StoppedAfterSeconds) ==> none_before(w, p, entered, a)
}

/// Where the session of a search comes from.
proof fn lemma_session_source(w: World, p: GameProfile, pid: u32, entered: u32) -> (pick: (
    int,
    int,
    CandidateView,
))
    requires
        regions_fit(w.regions),
        located(w, p, pid, entered).session is Some,
    ensures
        found_in_order(w, p, pid, entered, pick.0, pick.1, pick.2),
{
    let order = count_order(entered);
    let start = seq![Notice::AutoLocating { count: entered }];
    let e = counts_end(w, p, entered, order, 0, 0, start);
    let s = located(w, p, pid, entered).session.unwrap();
    lemma_ranked_len(e.groups);
    let (a, r) = lemma_counts_gather(w, p, entered, order, 0, 0, start);
    let k = lemma_first_ranked(e.groups);
    let c = e.groups[k];
    assert(candidate_of(w, p, e.matched, w.regions[r], c));
    lemma_concluded_reports(pid, entered, e);
    lemma_limits_stay(e.notices, located(w, p, pid, entered).notices);
    if !located(w, p, pid, entered).notices.contains(Notice::StoppedAfterHits) {
        assert forall|d: CandidateView| #[trigger]
            candidate_of(w, p, e.matched, w.regions[r], d) implies d.finding.score
            < c.finding.score || (d.finding.score == c.finding.score && c.place.count
            <= d.place.count) by {
            assert(e.groups.contains(d));
            let j = e.groups.index_of(d);
            assert(e.groups[j] == d);
            if j > k {
                assert(e.groups[k].place.count < e.groups[j].place.count);
            }
        }
    }
    (a, r, c)
}

/// Whether the group of a session lies in region `r`, with the number of layers.
pub open spec fn group_in_region(w: World, s: Session, r: int) -> bool {
    &&& 0 <= r < w.regions.len()
    &&& w.regions[r].base <= s.group_address
    &&& s.count_address + 2 <= w.regions[r].base + w.regions[r].size
    &&& occurs_at(
        (w.read)(w.regions[r].base, w.regions[r].size),
        count_pattern(s.layer_count),
        s.count_address - w.regions[r].base,
    )
}

/// The group of a session and the number of layers in it lie in one region of those
/// that are searched, and the two bytes there are the low two bytes of that number.
pub proof fn law_session_lies_in_a_region(w: World, p: GameProfile, pid: u32, entered: u32)
    requires
        regions_fit(w.regions),
    ensures
        located(w, p, pid, entered).session matches Some(s) ==> exists|r: int| #[trigger]
            group_in_region(w, s, r),
{
    if located(w, p, pid, entered).session is Some {
        let s = located(w, p, pid, entered).session.unwrap();
        let (a, r, c) = lemma_session_source(w, p, pid, entered);
        let region = w.regions[r];
        assert(occurs_at(
            (w.read)(region.base, region.size),
            count_pattern(s.layer_count),
            c.place.count - region.base,
        ));
        assert(group_in_region(w, s, r));
    }
}

/// The session of a search is that of the best group: the first region that has a group
/// for its number of layers wins, in it the highest score, and of equal scores the lowest
/// address, unless the search stopped after many hits in that region; and the first
/// number of layers that has a group anywhere wins, unless time ended a search.
pub proof fn law_best_group_wins(w: World, p: GameProfile, pid: u32, entered: u32)
    requires
        regions_fit(w.regions),
    ensures
        located(w, p, pid, entered).session is Some ==> exists|a: int, r: int, c: CandidateView|
            #[trigger]
            found_in_order(w, p, pid, entered, a, r, c),
{
    if located(w, p, pid, entered).session is Some {
        let (a, r, c) = lemma_session_source(w, p, pid, entered);
        assert(found_in_order(w, p, pid, entered, a, r, c));
    }
}

/// A search that no limit ended and that finds nothing misses nothing: no number of
/// layers that is tried has a group in any region.
pub proof fn law_search_misses_nothing(w: World, p: GameProfile, pid: u32, entered: u32)
    requires
        regions_fit(w.regions),
        located(w, p, pid, entered).session is None,
        unlimited(located(w, p, pid, entered).notices),
    ensures
        none_before(w, p, entered, count_order(entered).len() as int),
{
    let order = count_order(entered);
    let start = seq![Notice::AutoLocating { count: entered }];
    let e = counts_end(w, p, entered, order, 0, 0, start);
    lemma_ranked_len(e.groups);
    lemma_counts_gather(w, p, entered, order, 0, 0, start);
    lemma_concluded_reports(pid, entered, e);
    lemma_limits_stay(e.notices, located(w, p, pid, entered).notices);
}

/// Whether a session lies in private memory that can be read and written: its group with
/// the number of layers in a region that the system describes so, and its table too.
pub open spec fn in_private_memory(w: World, s: Session) -> bool {
    &&& w.writable(s.table_address)
    &&& exists|region: Region| #[trigger]
        described(w.info, true, region) && region.base <= s.group_address && s.count_address + 2
            <= region.base + region.size
}

/// Where the regions of the world are those of a walk over private memory, a session
/// lies in private memory that can be read and written.
pub proof fn law_session_lies_in_private_memory(w: World, p: GameProfile, pid: u32, entered: u32)
    requires
        regions_fit(w.regions),
        w.regions == walked(w.info, true, LOWEST_ADDRESS as int, Seq::empty()),
    ensures
        located(w, p, pid, entered).session matches Some(s) ==> in_private_memory(w, s),
{
    if located(w, p, pid, entered).session is Some {
        let s = located(w, p, pid, entered).session.unwrap();
        law_session_is_validated(w, p, pid, entered);
        law_found_table_covers_template(w, p, s.layer_count, s.table_pointer_field);
        law_session_lies_in_a_region(w, p, pid, entered);
        law_walk_keeps_usable_memory(w.info, true, LOWEST_ADDRESS as int, Seq::empty());
        let r = choose|r: int| #[trigger] group_in_region(w, s, r);
        assert(described(w.info, true, w.regions[r]));
    }
}

} // verus!
