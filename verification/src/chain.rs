//! The way from the main module of a game to the livery that is being edited: a
//! known signature is searched for, checked against its mirror, and pointers are
//! followed from it.

use vstd::prelude::*;

use crate::device::{
    answered, asked, fits, offset_by, one_read, plus, read_one, Reply, Request, RequestView, Span,
    World,
};
use crate::notices::{begins, group_begins, lemma_begins_chain, Notice};
use crate::profiles::GameProfile;
use crate::winmem::{find_from, found_from, read_u64};

verus! {

/// What the search for a livery comes to.
pub struct ChainOutcome {
    /// The address of the livery, where it was reached.
    pub livery: Option<u64>,
    /// What was reported on the way.
    pub notices: Seq<Notice>,
}

/// The block of memory that region `i` of a profile covers.
pub open spec fn block(p: GameProfile, base: u64, i: int) -> Span {
    Span { address: plus(base, p.scan_regions@[i].0), size: p.scan_regions@[i].1 }
}

/// Where signature `j` first stands in region `i`, counted from its start.
pub open spec fn signature_in(w: World, p: GameProfile, base: u64, i: int, j: int) -> Option<int> {
    found_from(
        (w.read)(block(p, base, i).address, block(p, base, i).size),
        p.signature_patterns@[j]@,
        0,
    )
}

/// The end of the search, when the editor is at `editor`.
pub open spec fn after_editor(
    w: World,
    p: GameProfile,
    editor: u64,
    notices: Seq<Notice>,
) -> ChainOutcome {
    let livery = w.u64_at(plus(editor, p.livery_pointer_offset));
    if livery == 0 {
        ChainOutcome { livery: None, notices: notices.push(Notice::MenuNotDetected) }
    } else {
        ChainOutcome { livery: Some(livery), notices }
    }
}

/// The end of the search, when the root of the liveries is at `root`.
pub open spec fn after_root(
    w: World,
    p: GameProfile,
    root: u64,
    notices: Seq<Notice>,
) -> ChainOutcome {
    let editor = w.u64_at(plus(root, p.editor_pointer_offset));
    if editor == 0 {
        ChainOutcome { livery: None, notices: notices.push(Notice::MenuNotDetected) }
    } else {
        after_editor(w, p, editor, notices)
    }
}

/// The end of the search, when the signature at `at`, `offset` behind the main
/// module, equals its mirror.
pub open spec fn after_mirror(
    w: World,
    p: GameProfile,
    at: u64,
    offset: u64,
    notices: Seq<Notice>,
) -> ChainOutcome {
    after_root(
        w,
        p,
        w.u64_at(plus(at, p.livery_root_pointer_offset)),
        notices.push(
            Notice::RootPointerAt { offset: plus(offset, p.livery_root_pointer_offset) },
        ),
    )
}

/// The end of the search, when a signature stands at `at`.
pub open spec fn after_signature(
    w: World,
    p: GameProfile,
    at: u64,
    offset: u64,
    notices: Seq<Notice>,
) -> ChainOutcome {
    if w.u64_at(at) != w.u64_at(plus(at, p.validation_mirror_offset)) {
        ChainOutcome { livery: None, notices: notices.push(Notice::ValidationFailed { offset }) }
    } else {
        after_mirror(w, p, at, offset, notices)
    }
}

/// The end of the search when it has come to signature `j` in region `i`.
pub open spec fn searched(
    w: World,
    p: GameProfile,
    base: u64,
    i: int,
    j: int,
    notices: Seq<Notice>,
) -> ChainOutcome
    decreases p.scan_regions@.len() - i, p.signature_patterns@.len() - j,
{
    if i >= p.scan_regions@.len() {
        ChainOutcome {
            livery: None,
            notices: notices.push(Notice::UnsupportedVersion).push(Notice::NeedsNewSignature),
        }
    } else if j >= p.signature_patterns@.len() {
        searched(w, p, base, i + 1, 0, notices)
    } else {
        let (offset, size) = p.scan_regions@[i];
        let scanning = notices.push(Notice::ScanningRange { offset, size });
        match signature_in(w, p, base, i, j) {
            Some(rel) => {
                let found = plus(offset, rel as u64);
                after_signature(
                    w,
                    p,
                    plus(base, found),
                    found,
                    scanning.push(Notice::SignatureAt { pattern: j as usize, offset: found }),
                )
            },
            None => searched(w, p, base, i, j + 1, scanning),
        }
    }
}

/// What the search for the livery comes to in the world `w`.
pub open spec fn livery_search(w: World, p: GameProfile) -> ChainOutcome {
    match w.base {
        None => ChainOutcome { livery: None, notices: seq![Notice::BaseUnavailable] },
        Some(base) => searched(w, p, base, 0, 0, seq![Notice::ScanningFor]),
    }
}

/// A search keeps what was reported before.
proof fn lemma_searched_reports(
    w: World,
    p: GameProfile,
    base: u64,
    i: int,
    j: int,
    notices: Seq<Notice>,
)
    ensures
        begins(notices, searched(w, p, base, i, j, notices).notices),
        0 <= i < p.scan_regions@.len() && 0 <= j < p.signature_patterns@.len() ==> begins(
            notices.push(
                Notice::ScanningRange { offset: p.scan_regions@[i].0, size: p.scan_regions@[i].1 },
            ),
            searched(w, p, base, i, j, notices).notices,
        ),
    decreases p.scan_regions@.len() - i, p.signature_patterns@.len() - j,
{
    broadcast use group_begins;

    let all = searched(w, p, base, i, j, notices).notices;
    if i < p.scan_regions@.len() {
        if j >= p.signature_patterns@.len() {
            lemma_searched_reports(w, p, base, i + 1, 0, notices);
        } else {
            let (offset, size) = p.scan_regions@[i];
            let scanning = notices.push(Notice::ScanningRange { offset, size });
            lemma_searched_reports(w, p, base, i, j + 1, scanning);
            lemma_begins_chain(notices, scanning, all);
        }
    }
}

/// Where a search has come to.
enum ChainStage {
    Base,
    Scan { base: u64, i: usize, j: usize },
    Mirror { at: u64, offset: u64 },
    Root { at: u64, offset: u64 },
    Editor { root: u64 },
    Livery { editor: u64 },
    Done { livery: Option<u64> },
}

/// A search for the livery, one request at a time.
pub struct LiveryChain {
    profile: GameProfile,
    stage: ChainStage,
    notices: Vec<Notice>,
}

impl LiveryChain {
    /// What was reported so far.
    pub closed spec fn reported(self) -> Seq<Notice> {
        self.notices@
    }

    /// The profile that the search goes by.
    pub closed spec fn game(self) -> GameProfile {
        self.profile
    }

    /// Whether the search is at a place of its profile.
    pub closed spec fn wf(self) -> bool {
        match self.stage {
            ChainStage::Scan { base, i, j } => {
                &&& i < self.profile.scan_regions@.len()
                &&& j < self.profile.signature_patterns@.len()
                &&& self.notices@.len() > 0
                &&& self.notices@.last() == (Notice::ScanningRange {
                    offset: self.profile.scan_regions@[i as int].0,
                    size: self.profile.scan_regions@[i as int].1,
                })
            },
            _ => true,
        }
    }

    /// The next request; none when the search has ended.
    pub closed spec fn asks(self) -> Option<RequestView> {
        let p = self.profile;
        match self.stage {
            ChainStage::Base => Some(RequestView::Base),
            ChainStage::Scan { base, i, j } => Some(
                RequestView::Read(seq![block(p, base, i as int)]),
            ),
            ChainStage::Mirror { at, offset } => Some(
                RequestView::Read(
                    seq![
                        Span { address: at, size: 8 },
                        Span { address: plus(at, p.validation_mirror_offset), size: 8 },
                    ],
                ),
            ),
            ChainStage::Root { at, offset } => Some(
                one_read(plus(at, p.livery_root_pointer_offset), 8),
            ),
            ChainStage::Editor { root } => Some(one_read(plus(root, p.editor_pointer_offset), 8)),
            ChainStage::Livery { editor } => Some(
                one_read(plus(editor, p.livery_pointer_offset), 8),
            ),
            ChainStage::Done { livery } => None,
        }
    }

    /// What the search comes to where requests are answered from now on as in `w`.
    pub closed spec fn expects(self, w: World) -> ChainOutcome {
        let p = self.profile;
        let notices = self.notices@;
        match self.stage {
            ChainStage::Base => match w.base {
                None => ChainOutcome {
                    livery: None,
                    notices: notices.push(Notice::BaseUnavailable),
                },
                Some(base) => searched(w, p, base, 0, 0, notices.push(Notice::ScanningFor)),
            },
            ChainStage::Scan { base, i, j } => searched(
                w,
                p,
                base,
                i as int,
                j as int,
                notices.drop_last(),
            ),
            ChainStage::Mirror { at, offset } => after_signature(w, p, at, offset, notices),
            ChainStage::Root { at, offset } => after_mirror(w, p, at, offset, notices),
            ChainStage::Editor { root } => after_root(w, p, root, notices),
            ChainStage::Livery { editor } => after_editor(w, p, editor, notices),
            ChainStage::Done { livery } => ChainOutcome { livery, notices },
        }
    }

    /// How far the search still has to go.
    pub closed spec fn measure(self) -> nat {
        let regions = self.profile.scan_regions@.len();
        let signatures = self.profile.signature_patterns@.len();
        match self.stage {
            ChainStage::Base => regions * signatures + 5,
            ChainStage::Scan { base, i, j } => ((regions - i) * signatures - j + 4) as nat,
            ChainStage::Mirror { .. } => 4,
            ChainStage::Root { .. } => 3,
            ChainStage::Editor { .. } => 2,
            ChainStage::Livery { .. } => 1,
            ChainStage::Done { .. } => 0,
        }
    }

    /// A search by the profile `profile`.
    pub fn new(profile: GameProfile) -> (r: LiveryChain)
        ensures
            r.wf(),
            r.game() == profile,
            r.asks() == Some(RequestView::Base),
            forall|w: World| #[trigger] r.expects(w) == livery_search(w, profile),
    {
        let r = LiveryChain { profile, stage: ChainStage::Base, notices: Vec::new() };
        assert forall|w: World| #[trigger] r.expects(w) == livery_search(w, profile) by {
            assert(r.notices@.push(Notice::BaseUnavailable) =~= seq![Notice::BaseUnavailable]);
            assert(r.notices@.push(Notice::ScanningFor) =~= seq![Notice::ScanningFor]);
        }
        r
    }

    /// The next request; none when the search has ended.
    pub fn request(&self) -> (r: Option<Request>)
        requires
            self.wf(),
        ensures
            asked(r) == self.asks(),
    {
        let p = &self.profile;
        match self.stage {
            ChainStage::Base => Some(Request::Base),
            ChainStage::Scan { base, i, j } => Some(
                read_one(offset_by(base, p.scan_regions[i].0), p.scan_regions[i].1),
            ),
            ChainStage::Mirror { at, offset } => {
                let mirror = offset_by(at, p.validation_mirror_offset);
                let spans = vec![
                    Span { address: at, size: 8 },
                    Span { address: mirror, size: 8 },
                ];
                assert(spans@ =~= seq![
                    Span { address: at, size: 8 },
                    Span { address: mirror, size: 8 },
                ]);
                Some(Request::Read(spans))
            },
            ChainStage::Root { at, offset } => Some(
                read_one(offset_by(at, p.livery_root_pointer_offset), 8),
            ),
            ChainStage::Editor { root } => Some(
                read_one(offset_by(root, p.editor_pointer_offset), 8),
            ),
            ChainStage::Livery { editor } => Some(
                read_one(offset_by(editor, p.livery_pointer_offset), 8),
            ),
            ChainStage::Done { livery } => None,
        }
    }

    /// Goes on with signature `j` in region `i`.
    fn scan(&mut self, base: u64, i: usize, j: usize)
        requires
            i <= old(self).profile.scan_regions@.len(),
            j <= old(self).profile.signature_patterns@.len(),
        ensures
            final(self).wf(),
            final(self).profile == old(self).profile,
            final(self).measure() <= (old(self).profile.scan_regions@.len() - i) * old(
                self,
            ).profile.signature_patterns@.len() - j + 4 || final(self).measure() == 0,
            forall|w: World| #[trigger]
                final(self).expects(w) == searched(
                    w,
                    old(self).profile,
                    base,
                    i as int,
                    j as int,
                    old(self).notices@,
                ),
        decreases old(self).profile.scan_regions@.len() - i,
    {
        if i >= self.profile.scan_regions.len() {
            self.notices.push(Notice::UnsupportedVersion);
            self.notices.push(Notice::NeedsNewSignature);
            self.stage = ChainStage::Done { livery: None };
        } else if j >= self.profile.signature_patterns.len() {
            let ghost regions = self.profile.scan_regions@.len() as int;
            let ghost signatures = self.profile.signature_patterns@.len() as int;
            assert((regions - i) * signatures - signatures == (regions - (i + 1)) * signatures)
                by (nonlinear_arith);
            self.scan(base, i + 1, 0);
        } else {
            let (offset, size) = self.profile.scan_regions[i];
            self.notices.push(Notice::ScanningRange { offset, size });
            self.stage = ChainStage::Scan { base, i, j };
            assert(self.notices@.drop_last() =~= old(self).notices@);
            let ghost regions = self.profile.scan_regions@.len() as int;
            let ghost signatures = self.profile.signature_patterns@.len() as int;
            assert((regions - i) * signatures >= signatures) by (nonlinear_arith)
                requires
                    regions - i >= 1,
                    signatures >= 0,
            ;
        }
    }

    /// Searches the block of region `i` for signature `j`.
    fn search_block(&mut self, base: u64, i: usize, j: usize, bytes: &Vec<u8>)
        requires
            old(self).wf(),
            old(self).stage == (ChainStage::Scan { base, i, j }),
        ensures
            final(self).wf(),
            final(self).profile == old(self).profile,
            final(self).measure() < old(self).measure(),
            forall|w: World|
                bytes@ == (w.read)(
                    block(old(self).profile, base, i as int).address,
                    block(old(self).profile, base, i as int).size,
                ) ==> #[trigger] final(self).expects(w) == old(self).expects(w),
    {
        let ghost regions = self.profile.scan_regions@.len() as int;
        let ghost signatures = self.profile.signature_patterns@.len() as int;
        assert((regions - i) * signatures >= signatures) by (nonlinear_arith)
            requires
                regions - i >= 1,
                signatures >= 0,
        ;
        let ghost scanning = self.notices@;
        match find_from(bytes.as_slice(), self.profile.signature_patterns[j], 0) {
            Some(rel) => {
                let found = offset_by(self.profile.scan_regions[i].0, rel as u64);
                self.notices.push(Notice::SignatureAt { pattern: j, offset: found });
                self.stage = ChainStage::Mirror { at: offset_by(base, found), offset: found };
            },
            None => {
                self.scan(base, i, j + 1);
            },
        }
        assert(scanning.drop_last().push(scanning.last()) =~= scanning);
    }

    /// Takes the answer to the request.
    pub fn answer(&mut self, reply: Reply)
        requires
            old(self).wf(),
            old(self).asks() matches Some(request) && fits(request, reply),
        ensures
            final(self).wf(),
            final(self).game() == old(self).game(),
            final(self).measure() < old(self).measure(),
            forall|w: World|
                answered(w, old(self).asks().unwrap(), reply) ==> #[trigger] final(self).expects(
                    w,
                ) == old(self).expects(w),
    {
        match self.stage {
            ChainStage::Base => {
                if let Reply::Base(Some(base)) = reply {
                    self.notices.push(Notice::ScanningFor);
                    self.scan(base, 0, 0);
                } else {
                    self.notices.push(Notice::BaseUnavailable);
                    self.stage = ChainStage::Done { livery: None };
                }
            },
            ChainStage::Scan { base, i, j } => {
                if let Reply::Blocks(blocks) = &reply {
                    self.search_block(base, i, j, &blocks[0]);
                }
            },
            ChainStage::Mirror { at, offset } => {
                if let Reply::Blocks(blocks) = reply {
                    if read_u64(&blocks[0]) != read_u64(&blocks[1]) {
                        self.notices.push(Notice::ValidationFailed { offset });
                        self.stage = ChainStage::Done { livery: None };
                    } else {
                        self.stage = ChainStage::Root { at, offset };
                    }
                }
            },
            ChainStage::Root { at, offset } => {
                if let Reply::Blocks(blocks) = reply {
                    let root = read_u64(&blocks[0]);
                    self.notices.push(
                        Notice::RootPointerAt {
                            offset: offset_by(offset, self.profile.livery_root_pointer_offset),
                        },
                    );
                    self.stage = ChainStage::Editor { root };
                }
            },
            ChainStage::Editor { root } => {
                if let Reply::Blocks(blocks) = reply {
                    let editor = read_u64(&blocks[0]);
                    if editor == 0 {
                        self.notices.push(Notice::MenuNotDetected);
                        self.stage = ChainStage::Done { livery: None };
                    } else {
                        self.stage = ChainStage::Livery { editor };
                    }
                }
            },
            ChainStage::Livery { editor } => {
                if let Reply::Blocks(blocks) = reply {
                    let livery = read_u64(&blocks[0]);
                    if livery == 0 {
                        self.notices.push(Notice::MenuNotDetected);
                        self.stage = ChainStage::Done { livery: None };
                    } else {
                        self.stage = ChainStage::Done { livery: Some(livery) };
                    }
                }
            },
            ChainStage::Done { livery } => {},
        }
    }

    /// What was reported so far is the start of what is reported in the end, whatever
    /// the answers are from now on.
    pub proof fn law_reports_are_final(self, w: World)
        requires
            self.wf(),
        ensures
            begins(self.reported(), self.expects(w).notices),
    {
        broadcast use group_begins;

        let p = self.profile;
        let notices = self.notices@;
        match self.stage {
            ChainStage::Base => {
                if let Some(base) = w.base {
                    let more = notices.push(Notice::ScanningFor);
                    lemma_searched_reports(w, p, base, 0, 0, more);
                    lemma_begins_chain(notices, more, self.expects(w).notices);
                }
            },
            ChainStage::Scan { base, i, j } => {
                lemma_searched_reports(w, p, base, i as int, j as int, notices.drop_last());
                assert(notices.drop_last().push(notices.last()) =~= notices);
            },
            _ => {},
        }
    }

    /// A search asks for no write.
    pub proof fn law_chain_only_reads(self)
        ensures
            self.asks() matches Some(request) ==> !(request is Write),
    {
    }

    /// Whether the search has ended.
    pub fn ended(&self) -> (r: bool)
        ensures
            r == (self.asks() is None),
    {
        match self.stage {
            ChainStage::Done { livery } => true,
            _ => false,
        }
    }

    /// What was reported so far.
    pub fn notices(&self) -> (r: &Vec<Notice>)
        ensures
            r@ == self.reported(),
    {
        &self.notices
    }

    /// The address of the livery, where it was reached.
    pub fn livery(&self) -> (r: Option<u64>)
        requires
            self.asks() is None,
        ensures
            forall|w: World| #[trigger]
                self.expects(w) == (ChainOutcome { livery: r, notices: self.reported() }),
    {
        match self.stage {
            ChainStage::Done { livery } => livery,
            _ => None,
        }
    }
}

} // verus!
