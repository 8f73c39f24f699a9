//! A check, without a single write, of every place in a game where the chain of
//! pointers to the livery can start.

use vstd::prelude::*;

use crate::chain::{block, livery_search, searched, signature_in};
use crate::device::{
    answered, asked, fits, offset_by, one_read, plus, read_one, Reply, Request, RequestView, Span,
    World,
};
use crate::notices::{begins, group_begins, lemma_begins_chain, Notice};
use crate::profiles::GameProfile;
use crate::winmem::{find_from, read_u64};

verus! {

/// What a diagnosis comes to.
pub struct DiagnosisOutcome {
    /// Whether a chain of pointers was found that holds in every part.
    pub valid: bool,
    /// What was reported on the way.
    pub notices: Seq<Notice>,
}

/// What the pointers behind one signature are.
#[derive(Clone, Copy, Debug, PartialEq, Eq, Structural)]
pub struct PointerChain {
    pub mirror_equal: bool,
    pub root: u64,
    pub editor: u64,
    pub livery: u64,
}

/// The pointers behind the signature at `at`; each pointer is followed only where
/// the one before it is not zero.
pub open spec fn pointers_at(w: World, p: GameProfile, at: u64) -> PointerChain {
    let root = w.u64_at(plus(at, p.livery_root_pointer_offset));
    let editor = if root != 0 {
        w.u64_at(plus(root, p.editor_pointer_offset))
    } else {
        0
    };
    PointerChain {
        mirror_equal: w.u64_at(at) == w.u64_at(plus(at, p.validation_mirror_offset)),
        root,
        editor,
        livery: if editor != 0 {
            w.u64_at(plus(editor, p.livery_pointer_offset))
        } else {
            0
        },
    }
}

/// Whether a chain holds in every part.
pub open spec fn chain_holds(c: PointerChain) -> bool {
    c.mirror_equal && c.root != 0 && c.editor != 0 && c.livery != 0
}

/// The report of a chain after that of its signature.
pub open spec fn chain_report(notices: Seq<Notice>, c: PointerChain) -> Seq<Notice> {
    notices.push(Notice::Mirror { equal: c.mirror_equal }).push(
        Notice::RootPointer { value: c.root },
    ).push(Notice::EditorPointer { value: c.editor }).push(
        Notice::LiveryPointer { value: c.livery },
    )
}

/// The end of a diagnosis that has come to signature `j` in region `i`.
pub open spec fn diagnosed(
    w: World,
    p: GameProfile,
    base: u64,
    i: int,
    j: int,
    valid: bool,
    notices: Seq<Notice>,
) -> DiagnosisOutcome
    decreases p.scan_regions@.len() - i, p.signature_patterns@.len() - j,
{
    if i >= p.scan_regions@.len() {
        DiagnosisOutcome {
            valid,
            notices: if valid {
                notices
            } else {
                notices.push(Notice::NoValidChain)
            },
        }
    } else if j >= p.signature_patterns@.len() {
        diagnosed(w, p, base, i + 1, 0, valid, notices)
    } else {
        let (offset, size) = p.scan_regions@[i];
        match signature_in(w, p, base, i, j) {
            Some(rel) => {
                let found = plus(offset, rel as u64);
                let c = pointers_at(w, p, plus(base, found));
                diagnosed(
                    w,
                    p,
                    base,
                    i,
                    j + 1,
                    valid || chain_holds(c),
                    chain_report(
                        notices.push(Notice::SignatureAt { pattern: j as usize, offset: found }),
                        c,
                    ),
                )
            },
            None => diagnosed(
                w,
                p,
                base,
                i,
                j + 1,
                valid,
                notices.push(Notice::NoMatch { offset, size }),
            ),
        }
    }
}

/// What the diagnosis of the process `pid` comes to in the world `w`.
pub open spec fn diagnosis(w: World, p: GameProfile, pid: u32) -> DiagnosisOutcome {
    match w.base {
        None => DiagnosisOutcome {
            valid: false,
            notices: seq![Notice::ProcessUnavailable { pid }],
        },
        Some(base) => diagnosed(
            w,
            p,
            base,
            0,
            0,
            false,
            seq![Notice::Diagnostics { pid }, Notice::BaseAt { base }],
        ),
    }
}

/// A diagnosis keeps what was reported before.
proof fn lemma_diagnosed_reports(
    w: World,
    p: GameProfile,
    base: u64,
    i: int,
    j: int,
    valid: bool,
    notices: Seq<Notice>,
)
    ensures
        begins(notices, diagnosed(w, p, base, i, j, valid, notices).notices),
    decreases p.scan_regions@.len() - i, p.signature_patterns@.len() - j,
{
    broadcast use group_begins;

    let all = diagnosed(w, p, base, i, j, valid, notices).notices;
    if i < p.scan_regions@.len() {
        if j >= p.signature_patterns@.len() {
            lemma_diagnosed_reports(w, p, base, i + 1, 0, valid, notices);
        } else {
            let (offset, size) = p.scan_regions@[i];
            match signature_in(w, p, base, i, j) {
                Some(rel) => {
                    let found = plus(offset, rel as u64);
                    let c = pointers_at(w, p, plus(base, found));
                    let more = chain_report(
                        notices.push(Notice::SignatureAt { pattern: j as usize, offset: found }),
                        c,
                    );
                    lemma_diagnosed_reports(w, p, base, i, j + 1, valid || chain_holds(c), more);
                    lemma_begins_chain(notices, more, all);
                },
                None => {
                    let more = notices.push(Notice::NoMatch { offset, size });
                    lemma_diagnosed_reports(w, p, base, i, j + 1, valid, more);
                    lemma_begins_chain(notices, more, all);
                },
            }
        }
    }
}

/// Where a diagnosis has come to.
#[derive(Clone, Copy)]
enum DiagnosisStage {
    Base,
    Scan { base: u64, i: usize, j: usize },
    Root { base: u64, i: usize, j: usize, at: u64 },
    Editor { base: u64, i: usize, j: usize, mirror_equal: bool, root: u64 },
    Livery { base: u64, i: usize, j: usize, mirror_equal: bool, root: u64, editor: u64 },
    Done,
}

/// A diagnosis, one request at a time.
pub struct Diagnosis {
    profile: GameProfile,
    pid: u32,
    stage: DiagnosisStage,
    valid: bool,
    notices: Vec<Notice>,
}

/// The rest of a diagnosis once the chain behind signature `j` is known.
spec fn after_chain(
    w: World,
    p: GameProfile,
    base: u64,
    i: int,
    j: int,
    valid: bool,
    notices: Seq<Notice>,
    c: PointerChain,
) -> DiagnosisOutcome {
    diagnosed(w, p, base, i, j + 1, valid || chain_holds(c), chain_report(notices, c))
}

impl Diagnosis {
    /// What was reported so far.
    pub closed spec fn reported(self) -> Seq<Notice> {
        self.notices@
    }

    /// The profile that the diagnosis goes by.
    pub closed spec fn game(self) -> GameProfile {
        self.profile
    }

    /// The scan that the diagnosis is at.
    spec fn place(self) -> (int, int) {
        match self.stage {
            DiagnosisStage::Scan { i, j, .. } => (i as int, j as int),
            DiagnosisStage::Root { i, j, .. } => (i as int, j as int),
            DiagnosisStage::Editor { i, j, .. } => (i as int, j as int),
            DiagnosisStage::Livery { i, j, .. } => (i as int, j as int),
            _ => (0, 0),
        }
    }

    /// Whether the diagnosis is at a place of its profile.
    pub closed spec fn wf(self) -> bool {
        match self.stage {
            DiagnosisStage::Base => self.notices@.len() == 0,
            DiagnosisStage::Done => true,
            _ => {
                &&& self.place().0 < self.profile.scan_regions@.len()
                &&& self.place().1 < self.profile.signature_patterns@.len()
            },
        }
    }

    /// The next request; none when the diagnosis has ended.
    pub closed spec fn asks(self) -> Option<RequestView> {
        let p = self.profile;
        match self.stage {
            DiagnosisStage::Base => Some(RequestView::Base),
            DiagnosisStage::Scan { base, i, j } => Some(
                RequestView::Read(seq![block(p, base, i as int)]),
            ),
            DiagnosisStage::Root { base, i, j, at } => Some(
                RequestView::Read(
                    seq![
                        Span { address: at, size: 8 },
                        Span { address: plus(at, p.validation_mirror_offset), size: 8 },
                        Span { address: plus(at, p.livery_root_pointer_offset), size: 8 },
                    ],
                ),
            ),
            DiagnosisStage::Editor { root, .. } => Some(
                one_read(plus(root, p.editor_pointer_offset), 8),
            ),
            DiagnosisStage::Livery { editor, .. } => Some(
                one_read(plus(editor, p.livery_pointer_offset), 8),
            ),
            DiagnosisStage::Done => None,
        }
    }

    /// What the diagnosis comes to where requests are answered from now on as in
    /// `w`.
    pub closed spec fn expects(self, w: World) -> DiagnosisOutcome {
        let p = self.profile;
        let notices = self.notices@;
        match self.stage {
            DiagnosisStage::Base => diagnosis(w, p, self.pid),
            DiagnosisStage::Scan { base, i, j } => diagnosed(
                w,
                p,
                base,
                i as int,
                j as int,
                self.valid,
                notices,
            ),
            DiagnosisStage::Root { base, i, j, at } => after_chain(
                w,
                p,
                base,
                i as int,
                j as int,
                self.valid,
                notices,
                pointers_at(w, p, at),
            ),
            DiagnosisStage::Editor { base, i, j, mirror_equal, root } => {
                let editor = w.u64_at(plus(root, p.editor_pointer_offset));
                let livery = if editor != 0 {
                    w.u64_at(plus(editor, p.livery_pointer_offset))
                } else {
                    0
                };
                after_chain(
                    w,
                    p,
                    base,
                    i as int,
                    j as int,
                    self.valid,
                    notices,
                    PointerChain { mirror_equal, root, editor, livery },
                )
            },
            DiagnosisStage::Livery { base, i, j, mirror_equal, root, editor } => {
                let livery = w.u64_at(plus(editor, p.livery_pointer_offset));
                after_chain(
                    w,
                    p,
                    base,
                    i as int,
                    j as int,
                    self.valid,
                    notices,
                    PointerChain { mirror_equal, root, editor, livery },
                )
            },
            DiagnosisStage::Done => DiagnosisOutcome { valid: self.valid, notices },
        }
    }

    /// How many scans are left from signature `j` in region `i` on.
    spec fn scans_left(self, i: int, j: int) -> int {
        (self.profile.scan_regions@.len() - i) * self.profile.signature_patterns@.len() - j
    }

    /// How far the diagnosis still has to go.
    pub closed spec fn measure(self) -> nat {
        let (i, j) = self.place();
        match self.stage {
            DiagnosisStage::Base => (4 * self.scans_left(0, 0) + 1) as nat,
            DiagnosisStage::Scan { .. } => (4 * self.scans_left(i, j)) as nat,
            DiagnosisStage::Root { .. } => (4 * self.scans_left(i, j) - 1) as nat,
            DiagnosisStage::Editor { .. } => (4 * self.scans_left(i, j) - 2) as nat,
            DiagnosisStage::Livery { .. } => (4 * self.scans_left(i, j) - 3) as nat,
            DiagnosisStage::Done => 0,
        }
    }

    proof fn lemma_scans_left(self, i: int, j: int)
        requires
            0 <= i < self.profile.scan_regions@.len(),
            0 <= j <= self.profile.signature_patterns@.len(),
        ensures
            self.scans_left(i, j) >= self.profile.signature_patterns@.len() - j,
            self.scans_left(i, j) == self.scans_left(i, 0) - j,
            self.scans_left(i, self.profile.signature_patterns@.len() as int) == self.scans_left(
                i + 1,
                0,
            ),
    {
        let regions = self.profile.scan_regions@.len() as int;
        let signatures = self.profile.signature_patterns@.len() as int;
        assert((regions - i) * signatures >= signatures) by (nonlinear_arith)
            requires
                regions - i >= 1,
                signatures >= 0,
        ;
        assert((regions - i) * signatures - signatures == (regions - (i + 1)) * signatures)
            by (nonlinear_arith);
    }

    /// A diagnosis of the process `pid` by the profile `profile`.
    pub fn new(profile: GameProfile, pid: u32) -> (r: Diagnosis)
        ensures
            r.wf(),
            r.game() == profile,
            r.asks() == Some(RequestView::Base),
            forall|w: World| #[trigger] r.expects(w) == diagnosis(w, profile, pid),
    {
        Diagnosis {
            profile,
            pid,
            stage: DiagnosisStage::Base,
            valid: false,
            notices: Vec::new(),
        }
    }

    /// The next request; none when the diagnosis has ended.
    pub fn request(&self) -> (r: Option<Request>)
        requires
            self.wf(),
        ensures
            asked(r) == self.asks(),
    {
        let p = &self.profile;
        match self.stage {
            DiagnosisStage::Base => Some(Request::Base),
            DiagnosisStage::Scan { base, i, j } => Some(
                read_one(offset_by(base, p.scan_regions[i].0), p.scan_regions[i].1),
            ),
            DiagnosisStage::Root { base, i, j, at } => {
                let spans = vec![
                    Span { address: at, size: 8 },
                    Span { address: offset_by(at, p.validation_mirror_offset), size: 8 },
                    Span { address: offset_by(at, p.livery_root_pointer_offset), size: 8 },
                ];
                assert(spans@ =~= seq![
                    Span { address: at, size: 8 },
                    Span { address: plus(at, p.validation_mirror_offset), size: 8 },
                    Span { address: plus(at, p.livery_root_pointer_offset), size: 8 },
                ]);
                Some(Request::Read(spans))
            },
            DiagnosisStage::Editor { root, .. } => Some(
                read_one(offset_by(root, p.editor_pointer_offset), 8),
            ),
            DiagnosisStage::Livery { editor, .. } => Some(
                read_one(offset_by(editor, p.livery_pointer_offset), 8),
            ),
            DiagnosisStage::Done => None,
        }
    }

    /// Goes on with signature `j` in region `i`.
    fn scan(&mut self, base: u64, i: usize, j: usize)
        requires
            i <= old(self).profile.scan_regions@.len(),
            j <= old(self).profile.signature_patterns@.len(),
            i == old(self).profile.scan_regions@.len() ==> j == 0,
        ensures
            final(self).wf(),
            final(self).profile == old(self).profile,
            final(self).measure() <= 4 * old(self).scans_left(i as int, j as int),
            forall|w: World| #[trigger]
                final(self).expects(w) == diagnosed(
                    w,
                    old(self).profile,
                    base,
                    i as int,
                    j as int,
                    old(self).valid,
                    old(self).notices@,
                ),
        decreases old(self).profile.scan_regions@.len() - i,
    {
        if i >= self.profile.scan_regions.len() {
            if !self.valid {
                self.notices.push(Notice::NoValidChain);
            }
            self.stage = DiagnosisStage::Done;
        } else {
            proof {
                self.lemma_scans_left(i as int, j as int);
            }
            if j >= self.profile.signature_patterns.len() {
                self.scan(base, i + 1, 0);
            } else {
                self.stage = DiagnosisStage::Scan { base, i, j };
            }
        }
    }

    /// Reports the chain behind signature `j` and goes on.
    fn report(&mut self, base: u64, i: usize, j: usize, c: PointerChain)
        requires
            i < old(self).profile.scan_regions@.len(),
            j < old(self).profile.signature_patterns@.len(),
        ensures
            final(self).wf(),
            final(self).profile == old(self).profile,
            final(self).measure() <= 4 * old(self).scans_left(i as int, j as int) - 4,
            forall|w: World| #[trigger]
                final(self).expects(w) == after_chain(
                    w,
                    old(self).profile,
                    base,
                    i as int,
                    j as int,
                    old(self).valid,
                    old(self).notices@,
                    c,
                ),
    {
        proof {
            self.lemma_scans_left(i as int, j as int);
            self.lemma_scans_left(i as int, j + 1);
        }
        self.notices.push(Notice::Mirror { equal: c.mirror_equal });
        self.notices.push(Notice::RootPointer { value: c.root });
        self.notices.push(Notice::EditorPointer { value: c.editor });
        self.notices.push(Notice::LiveryPointer { value: c.livery });
        self.valid = self.valid || (c.mirror_equal && c.root != 0 && c.editor != 0 && c.livery
            != 0);
        assert(j < self.profile.signature_patterns.len());
        self.scan(base, i, j + 1);
    }

    /// Searches the block of region `i` for signature `j`.
    fn search_block(&mut self, base: u64, i: usize, j: usize, bytes: &Vec<u8>)
        requires
            old(self).wf(),
            old(self).stage == (DiagnosisStage::Scan { base, i, j }),
        ensures
            final(self).wf(),
            final(self).profile == old(self).profile,
            final(self).measure() < old(self).measure(),
            forall|w: World|
                bytes@ == (w.read)(
                    block(old(self).profile, base, i as int).address,
                    block(old(self).profile, base, i as int).size,
                ) ==> #[trigger] final(self).expects(w) == old(self).expects(w),
    {
        proof {
            self.lemma_scans_left(i as int, j as int);
            self.lemma_scans_left(i as int, j + 1);
        }
        let (offset, size) = self.profile.scan_regions[i];
        match find_from(bytes.as_slice(), self.profile.signature_patterns[j], 0) {
            Some(rel) => {
                let found = offset_by(offset, rel as u64);
                self.notices.push(Notice::SignatureAt { pattern: j, offset: found });
                self.stage = DiagnosisStage::Root { base, i, j, at: offset_by(base, found) };
            },
            None => {
                self.notices.push(Notice::NoMatch { offset, size });
                self.scan(base, i, j + 1);
            },
        }
    }

    /// Takes the answer to the request.
    pub fn answer(&mut self, reply: Reply)
        requires
            old(self).wf(),
            old(self).asks() matches Some(request) && fits(request, reply),
        ensures
            final(self).wf(),
            final(self).game() == old(self).game(),
            final(self).measure() < old(self).measure(),
            forall|w: World|
                answered(w, old(self).asks().unwrap(), reply) ==> #[trigger] final(self).expects(
                    w,
                ) == old(self).expects(w),
    {
        proof {
            let (i, j) = self.place();
            if !(self.stage is Base || self.stage is Done) {
                self.lemma_scans_left(i, j);
            } else if self.profile.scan_regions@.len() > 0 {
                self.lemma_scans_left(0, 0);
            }
        }
        match self.stage {
            DiagnosisStage::Base => {
                if let Reply::Base(Some(base)) = reply {
                    self.notices.push(Notice::Diagnostics { pid: self.pid });
                    self.notices.push(Notice::BaseAt { base });
                    self.valid = false;
                    assert(self.notices@ =~= seq![
                        Notice::Diagnostics { pid: self.pid },
                        Notice::BaseAt { base },
                    ]);
                    self.scan(base, 0, 0);
                } else {
                    self.notices.push(Notice::ProcessUnavailable { pid: self.pid });
                    self.valid = false;
                    self.stage = DiagnosisStage::Done;
                    assert(self.notices@ =~= seq![Notice::ProcessUnavailable { pid: self.pid }]);
                }
            },
            DiagnosisStage::Scan { base, i, j } => {
                if let Reply::Blocks(blocks) = &reply {
                    self.search_block(base, i, j, &blocks[0]);
                }
            },
            DiagnosisStage::Root { base, i, j, at } => {
                if let Reply::Blocks(blocks) = &reply {
                    let mirror_equal = read_u64(&blocks[0]) == read_u64(&blocks[1]);
                    let root = read_u64(&blocks[2]);
                    if root != 0 {
                        self.stage = DiagnosisStage::Editor { base, i, j, mirror_equal, root };
                    } else {
                        self.report(
                            base,
                            i,
                            j,
                            PointerChain { mirror_equal, root, editor: 0, livery: 0 },
                        );
                    }
                }
            },
            DiagnosisStage::Editor { base, i, j, mirror_equal, root } => {
                if let Reply::Blocks(blocks) = &reply {
                    let editor = read_u64(&blocks[0]);
                    if editor != 0 {
                        self.stage = DiagnosisStage::Livery {
                            base,
                            i,
                            j,
                            mirror_equal,
                            root,
                            editor,
                        };
                    } else {
                        self.report(
                            base,
                            i,
                            j,
                            PointerChain { mirror_equal, root, editor, livery: 0 },
                        );
                    }
                }
            },
            DiagnosisStage::Livery { base, i, j, mirror_equal, root, editor } => {
                if let Reply::Blocks(blocks) = &reply {
                    let livery = read_u64(&blocks[0]);
                    self.report(
                        base,
                        i,
                        j,
                        PointerChain { mirror_equal, root, editor, livery },
                    );
                }
            },
            DiagnosisStage::Done => {},
        }
    }

    /// What was reported so far is the start of what is reported in the end, whatever
    /// the answers are from now on.
    pub proof fn law_reports_are_final(self, w: World)
        requires
            self.wf(),
        ensures
            begins(self.reported(), self.expects(w).notices),
    {
        broadcast use group_begins;

        let p = self.profile;
        let notices = self.notices@;
        match self.stage {
            DiagnosisStage::Base => {
                reveal(begins);
                assert(notices =~= self.expects(w).notices.subrange(0, 0));
            },
            DiagnosisStage::Scan { base, i, j } => {
                lemma_diagnosed_reports(w, p, base, i as int, j as int, self.valid, notices);
            },
            DiagnosisStage::Root { base, i, j, at } => {
                self.lemma_chain_reports(w, base, i as int, j as int, pointers_at(w, p, at));
            },
            DiagnosisStage::Editor { base, i, j, mirror_equal, root } => {
                let editor = w.u64_at(plus(root, p.editor_pointer_offset));
                let livery = if editor != 0 {
                    w.u64_at(plus(editor, p.livery_pointer_offset))
                } else {
                    0
                };
                let c = PointerChain { mirror_equal, root, editor, livery };
                self.lemma_chain_reports(w, base, i as int, j as int, c);
            },
            DiagnosisStage::Livery { base, i, j, mirror_equal, root, editor } => {
                let livery = w.u64_at(plus(editor, p.livery_pointer_offset));
                let c = PointerChain { mirror_equal, root, editor, livery };
                self.lemma_chain_reports(w, base, i as int, j as int, c);
            },
            DiagnosisStage::Done => {},
        }
    }

    /// The rest of a diagnosis keeps what was reported before a chain.
    proof fn lemma_chain_reports(self, w: World, base: u64, i: int, j: int, c: PointerChain)
        ensures
            begins(
                self.notices@,
                after_chain(
                    w,
                    self.profile,
                    base,
                    i,
                    j,
                    self.valid,
                    self.notices@,
                    c,
                ).notices,
            ),
    {
        broadcast use group_begins;

        let p = self.profile;
        let more = chain_report(self.notices@, c);
        let valid = self.valid || chain_holds(c);
        lemma_diagnosed_reports(w, p, base, i, j + 1, valid, more);
        lemma_begins_chain(
            self.notices@,
            more,
            diagnosed(w, p, base, i, j + 1, valid, more).notices,
        );
    }

    /// A diagnosis asks for no write.
    pub proof fn law_diagnosis_only_reads(self)
        ensures
            self.asks() matches Some(request) ==> !(request is Write),
    {
    }

    /// The profile that the run goes by.
    pub fn profile(&self) -> (r: &GameProfile)
        ensures
            *r == self.game(),
    {
        &self.profile
    }

    /// What was reported so far.
    pub fn notices(&self) -> (r: &Vec<Notice>)
        ensures
            r@ == self.reported(),
    {
        &self.notices
    }

    /// Whether a chain of pointers was found that holds in every part.
    pub fn valid(&self) -> (r: bool)
        requires
            self.asks() is None,
        ensures
            forall|w: World| #[trigger]
                self.expects(w) == (DiagnosisOutcome { valid: r, notices: self.reported() }),
    {
        self.valid
    }
}

/// Where the root of the liveries is behind the first signature from signature `j` in
/// region `i` on; zero where there is none.
pub open spec fn first_root(w: World, p: GameProfile, base: u64, i: int, j: int) -> u64
    decreases p.scan_regions@.len() - i, p.signature_patterns@.len() - j,
{
    if i >= p.scan_regions@.len() {
        0
    } else if j >= p.signature_patterns@.len() {
        first_root(w, p, base, i + 1, 0)
    } else {
        match signature_in(w, p, base, i, j) {
            Some(rel) => w.u64_at(
                plus(
                    plus(base, plus(p.scan_regions@[i].0, rel as u64)),
                    p.livery_root_pointer_offset,
                ),
            ),
            None => first_root(w, p, base, i, j + 1),
        }
    }
}

/// A diagnosis that has found a chain keeps it.
proof fn lemma_valid_stays(
    w: World,
    p: GameProfile,
    base: u64,
    i: int,
    j: int,
    notices: Seq<Notice>,
)
    ensures
        diagnosed(w, p, base, i, j, true, notices).valid,
    decreases p.scan_regions@.len() - i, p.signature_patterns@.len() - j,
{
    if i < p.scan_regions@.len() {
        if j >= p.signature_patterns@.len() {
            lemma_valid_stays(w, p, base, i + 1, 0, notices);
        } else {
            let (offset, size) = p.scan_regions@[i];
            match signature_in(w, p, base, i, j) {
                Some(rel) => {
                    let found = plus(offset, rel as u64);
                    let c = pointers_at(w, p, plus(base, found));
                    let more = chain_report(
                        notices.push(Notice::SignatureAt { pattern: j as usize, offset: found }),
                        c,
                    );
                    lemma_valid_stays(w, p, base, i, j + 1, more);
                },
                None => {
                    lemma_valid_stays(
                        w,
                        p,
                        base,
                        i,
                        j + 1,
                        notices.push(Notice::NoMatch { offset, size }),
                    );
                },
            }
        }
    }
}

proof fn lemma_accepted_chain(
    w: World,
    p: GameProfile,
    base: u64,
    i: int,
    j: int,
    searching: Seq<Notice>,
    notices: Seq<Notice>,
)
    requires
        searched(w, p, base, i, j, searching).livery is Some,
        first_root(w, p, base, i, j) != 0,
    ensures
        diagnosed(w, p, base, i, j, false, notices).valid,
    decreases p.scan_regions@.len() - i, p.signature_patterns@.len() - j,
{
    if i < p.scan_regions@.len() {
        if j >= p.signature_patterns@.len() {
            lemma_accepted_chain(w, p, base, i + 1, 0, searching, notices);
        } else {
            let (offset, size) = p.scan_regions@[i];
            match signature_in(w, p, base, i, j) {
                Some(rel) => {
                    let found = plus(offset, rel as u64);
                    let c = pointers_at(w, p, plus(base, found));
                    assert(chain_holds(c));
                    let more = chain_report(
                        notices.push(Notice::SignatureAt { pattern: j as usize, offset: found }),
                        c,
                    );
                    lemma_valid_stays(w, p, base, i, j + 1, more);
                },
                None => {
                    lemma_accepted_chain(
                        w,
                        p,
                        base,
                        i,
                        j + 1,
                        searching.push(Notice::ScanningRange { offset, size }),
                        notices.push(Notice::NoMatch { offset, size }),
                    );
                },
            }
        }
    }
}

/// A chain of pointers that an import accepts, with a root other than zero, makes the
/// diagnosis valid.
pub proof fn law_accepted_chain_is_valid(w: World, p: GameProfile, pid: u32)
    requires
        livery_search(w, p).livery is Some,
        w.base matches Some(base) && first_root(w, p, base, 0, 0) != 0,
    ensures
        diagnosis(w, p, pid).valid,
{
    let base = w.base.unwrap();
    lemma_accepted_chain(
        w,
        p,
        base,
        0,
        0,
        seq![Notice::ScanningFor],
        seq![Notice::Diagnostics { pid }, Notice::BaseAt { base }],
    );
}

} // verus!
