//! The layers of a template between two runs: the session that is kept, the start
//! of a search for them, and a look at a table of layers.

use vstd::prelude::*;
use vstd::string::*;

use crate::device::{
    answered, asked, fits, offset_by, one_read, plus, read_one, Reply, Request,
    RequestView, Span, World,
};
use crate::cli::characters;
use crate::importer::{find_target, start_refusal, StartError};
use crate::json::{
    is_whole, json_document, json_pretty, member_signed, member_unsigned, object_means, parse_json,
    write_object, JsonTree, Scalar,
};
use crate::layers::{
    bytes_from, layer_bytes, layer_spans, look_at, look_score, push_layer_spans,
    score_layer_pointer, LayerLook,
};
use crate::locator::{located, Locator, Session};
use crate::notices::{bytes_text, describe_look, look_text, push_bytes};
use crate::procs::{games, optional_text, pid_is_live, resolved, GameProc};
use crate::profiles::{profile_of, GameProfile};
use crate::text::{decimal, hexadecimal, push_decimal, push_hex};
use crate::winmem::{is_user_pointer, read_u64, user_pointer};

verus! {

/// The file that keeps the session.
pub fn session_path() -> (r: String)
    ensures
        r@ == "fh6-session.json"@,
{
    "fh6-session.json".to_string()
}

/// The lowest four bytes of a number.
pub open spec fn low_word(n: u64) -> u32 {
    (n % 0x1_0000_0000) as u32
}

/// The number, or zero for none.
pub open spec fn or_zero(n: Option<u64>) -> u64 {
    match n {
        Some(v) => v,
        None => 0,
    }
}

/// The session that a document holds, where it has the members that count.
pub open spec fn session_in(t: JsonTree) -> Option<Session> {
    match (
        member_unsigned(t, "pid"@),
        member_unsigned(t, "layer_count"@),
        member_unsigned(t, "count_address"@),
        member_unsigned(t, "table_address"@),
    ) {
        (Some(pid), Some(layer_count), Some(count_address), Some(table_address)) => Some(
            Session {
                pid: low_word(pid),
                layer_count: low_word(layer_count),
                group_address: or_zero(member_unsigned(t, "group_address"@)),
                count_address,
                table_pointer_field: or_zero(member_unsigned(t, "table_pointer_field"@)),
                table_address,
                score: match member_signed(t, "score"@) {
                    Some(n) => n,
                    None => 0,
                },
            },
        ),
        _ => None,
    }
}

/// Reads the session from the text of the file that keeps it.
pub fn load_session(text: &str) -> (r: Option<Session>)
    ensures
        r == (match json_document(text@) {
            Some(t) => session_in(t),
            None => None,
        }),
{
    let doc = match parse_json(text) {
        Some(doc) => doc,
        None => return None,
    };
    let pid = doc.member_as_unsigned("pid");
    let layer_count = doc.member_as_unsigned("layer_count");
    let count_address = doc.member_as_unsigned("count_address");
    let table_address = doc.member_as_unsigned("table_address");
    let group_address = match doc.member_as_unsigned("group_address") {
        Some(n) => n,
        None => 0,
    };
    let table_pointer_field = match doc.member_as_unsigned("table_pointer_field") {
        Some(n) => n,
        None => 0,
    };
    let score = match doc.member_as_signed("score") {
        Some(n) => n,
        None => 0,
    };
    match (pid, layer_count, count_address, table_address) {
        (Some(pid), Some(layer_count), Some(count_address), Some(table_address)) => Some(
            Session {
                pid: (pid % 0x1_0000_0000) as u32,
                layer_count: (layer_count % 0x1_0000_0000) as u32,
                group_address,
                count_address,
                table_pointer_field,
                table_address,
                score,
            },
        ),
        _ => None,
    }
}

/// Whether a tree is the document that keeps the session `s` of the process that is
/// called `process`.
pub open spec fn session_document(t: JsonTree, s: Session, process: Seq<char>) -> bool {
    &&& t matches JsonTree::Object(m)
    &&& m.dom() == set![
        "type"@,
        "pid"@,
        "process"@,
        "layer_count"@,
        "group_address"@,
        "count_address"@,
        "table_pointer_field"@,
        "table_address"@,
        "score"@,
        "locator"@,
    ]
    &&& m["type"@] == JsonTree::Text("fh6_session_location_v1"@)
    &&& is_whole(m["pid"@], s.pid as int)
    &&& m["process"@] == JsonTree::Text(process)
    &&& is_whole(m["layer_count"@], s.layer_count as int)
    &&& is_whole(m["group_address"@], s.group_address as int)
    &&& is_whole(m["count_address"@], s.count_address as int)
    &&& is_whole(m["table_pointer_field"@], s.table_pointer_field as int)
    &&& is_whole(m["table_address"@], s.table_address as int)
    &&& is_whole(m["score"@], s.score as int)
    &&& m["locator"@] == JsonTree::Text("u16_group_layout"@)
}

/// The text of the file that keeps the session `s`.
pub fn render_session(s: &Session, process: &str) -> (r: String)
    ensures
        exists|t: JsonTree| #[trigger]
            session_document(t, *s, process@) && r@ == json_pretty(t) && json_document(r@) == Some(
                t,
            ),
{
    let mut members: Vec<(String, Scalar)> = Vec::new();
    members.push(("type".to_string(), Scalar::Text("fh6_session_location_v1".to_string())));
    members.push(("pid".to_string(), Scalar::Unsigned(s.pid as u64)));
    members.push(("process".to_string(), Scalar::Text(process.to_string())));
    members.push(("layer_count".to_string(), Scalar::Unsigned(s.layer_count as u64)));
    members.push(("group_address".to_string(), Scalar::Unsigned(s.group_address)));
    members.push(("count_address".to_string(), Scalar::Unsigned(s.count_address)));
    members.push(("table_pointer_field".to_string(), Scalar::Unsigned(s.table_pointer_field)));
    members.push(("table_address".to_string(), Scalar::Unsigned(s.table_address)));
    members.push(("score".to_string(), Scalar::Signed(s.score)));
    members.push(("locator".to_string(), Scalar::Text("u16_group_layout".to_string())));
    let ghost all = members@;
    proof {
        lemma_session_names();
        assert forall|a: int, b: int| 0 <= a < b < all.len() implies (#[trigger] all[a]).0@ != (
        #[trigger] all[b]).0@ by {
            assert(a == 0 || a == 1 || a == 2 || a == 3 || a == 4 || a == 5 || a == 6 || a == 7 || a
                == 8);
            assert(b == 1 || b == 2 || b == 3 || b == 4 || b == 5 || b == 6 || b == 7 || b == 8 || b
                == 9);
        }
    }
    let r = write_object(members);
    proof {
        let t = choose|t: JsonTree| #[trigger]
            object_means(all, t) && r@ == json_pretty(t) && json_document(r@) == Some(t);
        let m = t->Object_0;
        assert(m.dom().contains(all[0].0@));
        assert(m.dom().contains(all[1].0@));
        assert(m.dom().contains(all[2].0@));
        assert(m.dom().contains(all[3].0@));
        assert(m.dom().contains(all[4].0@));
        assert(m.dom().contains(all[5].0@));
        assert(m.dom().contains(all[6].0@));
        assert(m.dom().contains(all[7].0@));
        assert(m.dom().contains(all[8].0@));
        assert(m.dom().contains(all[9].0@));
        assert(m.dom() =~= set![
            "type"@,
            "pid"@,
            "process"@,
            "layer_count"@,
            "group_address"@,
            "count_address"@,
            "table_pointer_field"@,
            "table_address"@,
            "score"@,
            "locator"@,
        ]);
        assert(session_document(t, *s, process@));
    }
    r
}

/// The lengths of the names of the members of a session, and where names of one
/// length differ.
proof fn lemma_session_names()
    ensures
        "type"@.len() == 4,
        "pid"@.len() == 3,
        "process"@.len() == 7,
        "layer_count"@.len() == 11,
        "group_address"@.len() == 13,
        "count_address"@.len() == 13,
        "table_pointer_field"@.len() == 19,
        "table_address"@.len() == 13,
        "score"@.len() == 5,
        "locator"@.len() == 7,
        "group_address"@ != "count_address"@,
        "group_address"@ != "table_address"@,
        "count_address"@ != "table_address"@,
        "process"@ != "locator"@,
{
    reveal_strlit("type");
    reveal_strlit("pid");
    reveal_strlit("process");
    reveal_strlit("layer_count");
    reveal_strlit("group_address");
    reveal_strlit("count_address");
    reveal_strlit("table_pointer_field");
    reveal_strlit("table_address");
    reveal_strlit("score");
    reveal_strlit("locator");
    assert("group_address"@[0] != "count_address"@[0]);
    assert("group_address"@[0] != "table_address"@[0]);
    assert("count_address"@[0] != "table_address"@[0]);
    assert("process"@[0] != "locator"@[0]);
}

/// What is kept of a session is read back.
pub proof fn law_session_is_read_back(t: JsonTree, s: Session, process: Seq<char>)
    requires
        session_document(t, s, process),
    ensures
        session_in(t) == Some(s),
{
}

/// Whether `text` is what is to be written where a search came to `found`: a text that
/// keeps the session, where there is one, and else nothing.
pub open spec fn keeps_session(
    text: Option<Seq<char>>,
    found: Option<Session>,
    process: Seq<char>,
) -> bool {
    match (text, found) {
        (Some(t), Some(s)) => json_document(t) matches Some(doc) && session_document(
            doc,
            s,
            process,
        ) && t == json_pretty(doc),
        (None, None) => true,
        _ => false,
    }
}

/// The text of the file that keeps the session that a search found; nothing is written
/// where it found none.
pub fn session_text(l: &Locator, process: &str) -> (r: Option<String>)
    requires
        l.wf(),
        l.asks() is None,
    ensures
        forall|w: World|
            keeps_session(characters(r), (#[trigger] l.expects(w)).session, process@),
{
    match l.session() {
        Some(s) => {
            let text = render_session(&s, process);
            proof {
                let t = choose|t: JsonTree| #[trigger]
                    session_document(t, s, process@) && text@ == json_pretty(t) && json_document(
                        text@,
                    ) == Some(t);
                assert(session_document(t, s, process@));
            }
            Some(text)
        },
        None => None,
    }
}

/// What the file that keeps the session holds after a search that is to write `text`.
pub open spec fn session_file(before: Option<Seq<char>>, text: Option<Seq<char>>) -> Option<
    Seq<char>,
> {
    match text {
        Some(t) => Some(t),
        None => before,
    }
}

/// After a search that found a session the file gives back that session, every part of
/// it; after one that found none the file is as it was.
pub proof fn law_session_file_keeps_the_last_session(
    before: Option<Seq<char>>,
    text: Option<Seq<char>>,
    found: Option<Session>,
    process: Seq<char>,
)
    requires
        keeps_session(text, found, process),
    ensures
        found matches Some(s) ==> (session_file(before, text) matches Some(t) && (json_document(
            t,
        ) matches Some(doc) && session_in(doc) == Some(s))),
        found is None ==> session_file(before, text) == before,
{
    if let Some(s) = found {
        law_session_is_read_back(json_document(text.unwrap()).unwrap(), s, process);
    }
}

/// How the process of a session is called in the file that keeps it.
pub fn process_name(pid: u32) -> (r: String)
    ensures
        r@ == "pid"@ + decimal(pid as nat),
{
    let mut s = "pid".to_string();
    push_decimal(&mut s, pid as u64);
    s
}

/// Whether the process of a session is among the games `found`.
pub fn session_pid_is_live(s: &Session, found: &Vec<GameProc>) -> (r: bool)
    ensures
        r <==> exists|i: int| 0 <= i < found@.len() && (#[trigger] found@[i]).pid == s.pid,
{
    pid_is_live(found, s.pid)
}

/// Starts the search for the layers of a template with `layer_count` layers in the
/// process that is meant among the games `found`, and names the process.
pub fn auto_locate(
    game: Option<&str>,
    pid_override: Option<u32>,
    layer_count: u32,
    found: &Vec<GameProc>,
) -> (r: Result<(u32, Locator), StartError>)
    ensures
        match r {
            Ok((pid, l)) => {
                &&& resolved(games(found@), optional_text(game), pid_override) matches Some(
                    (pid1, key),
                )
                &&& pid1 == pid
                &&& profile_of(key, l.game())
                &&& l.wf()
                &&& forall|w: World| #[trigger]
                    l.expects(w) == located(w, l.game(), pid, layer_count)
            },
            Err(e) => start_refusal(resolved(games(found@), optional_text(game), pid_override))
                == Some(e@),
        },
{
    match find_target(found, game, pid_override) {
        Ok((pid, key, profile)) => Ok((pid, Locator::new(profile, pid, layer_count))),
        Err(e) => Err(e),
    }
}

/// What is said when a search finds nothing.
pub fn not_located_text() -> (r: &'static str)
    ensures
        r@
            == "No safe FH6 layer group found near that count. Use an UNGROUPED template and enter the EXACT current layer count, then re-run Auto-locate."@,
{
    "No safe FH6 layer group found near that count. Use an UNGROUPED template and enter the EXACT current layer count, then re-run Auto-locate."
}

/// What a table of layers holds in one entry.
#[derive(Debug)]
pub struct TableEntry {
    pub index: u32,
    /// Where the entry stands.
    pub address: u64,
    /// Where it points to.
    pub pointer: u64,
    /// What is there, where a pointer can point there.
    pub layer: Option<InspectedLayer>,
}

/// What is found where an entry points to.
#[derive(Debug)]
pub struct InspectedLayer {
    pub look: LayerLook,
    pub raw: Vec<u8>,
}

/// An entry, the bytes as a sequence.
pub struct TableEntryView {
    pub index: int,
    pub address: u64,
    pub pointer: u64,
    pub layer: Option<(LayerLook, Seq<u8>)>,
}

impl View for TableEntry {
    type V = TableEntryView;

    open spec fn view(&self) -> TableEntryView {
        TableEntryView {
            index: self.index as int,
            address: self.address,
            pointer: self.pointer,
            layer: match self.layer {
                Some(l) => Some((l.look, l.raw@)),
                None => None,
            },
        }
    }
}

/// Entry `i` of the table at `table` in the world `w`.
pub open spec fn entry_at(w: World, p: GameProfile, table: u64, i: int) -> TableEntryView {
    let address = plus(table, (8 * i) as u64);
    entry_with(w, p, i, address, w.u64_at(address))
}

/// Entry `i` at `address` that points to `pointer`.
pub open spec fn entry_with(
    w: World,
    p: GameProfile,
    i: int,
    address: u64,
    pointer: u64,
) -> TableEntryView {
    TableEntryView {
        index: i,
        address,
        pointer,
        layer: if user_pointer(pointer) {
            Some((look_at(w, p, pointer), (w.read)(pointer, 0x80)))
        } else {
            None
        },
    }
}

/// The first entries of a table: at most `most` and no more than there are layers.
pub open spec fn inspected(
    w: World,
    p: GameProfile,
    table: u64,
    layer_count: u32,
    most: u32,
) -> Seq<TableEntryView> {
    Seq::new(
        if layer_count < most {
            layer_count as nat
        } else {
            most as nat
        },
        |i: int| entry_at(w, p, table, i),
    )
}

/// The entries of a list.
pub open spec fn entry_views(v: Seq<TableEntry>) -> Seq<TableEntryView> {
    v.map_values(|e: TableEntry| e@)
}

/// Whether an entry points to something that looks like a layer in any field.
pub open spec fn scored_entry(e: TableEntryView) -> bool {
    e.layer matches Some((look, raw)) && look_score(look) > 0
}

/// How many entries do so.
pub open spec fn scored_entries(s: Seq<TableEntryView>) -> int
    decreases s.len(),
{
    if s.len() == 0 {
        0
    } else {
        scored_entries(s.drop_last()) + (if scored_entry(s.last()) {
            1int
        } else {
            0
        })
    }
}

/// Counts the entries that point to something that looks like a layer.
pub fn count_scored(v: &Vec<TableEntry>) -> (r: usize)
    ensures
        r == scored_entries(entry_views(v@)),
{
    let mut n: usize = 0;
    let ghost all = entry_views(v@);
    assert(all.take(0) =~= Seq::<TableEntryView>::empty());
    for i in 0..v.len()
        invariant
            all == entry_views(v@),
            n == scored_entries(all.take(i as int)),
            n <= i,
    {
        assert(all.take(i + 1).drop_last() =~= all.take(i as int));
        assert(all[i as int] == v@[i as int]@);
        if let Some(l) = &v[i].layer {
            if l.look.score() > 0 {
                n = n + 1;
            }
        }
    }
    assert(all.take(v@.len() as int) =~= all);
    n
}

/// Where a look at a table has come to.
#[derive(Clone, Copy)]
enum InspectStage {
    Entry,
    Layer { pointer: u64 },
    Done,
}

/// A look at the first entries of a table, one request at a time.
pub struct Inspection {
    profile: GameProfile,
    table: u64,
    total: u32,
    stage: InspectStage,
    entries: Vec<TableEntry>,
}

/// The spans that are read where an entry points to.
spec fn inspected_spans(p: GameProfile, pointer: u64) -> Seq<Span> {
    layer_spans(p, pointer).push(Span { address: pointer, size: 0x80 })
}

impl Inspection {
    /// The profile that the look goes by.
    pub closed spec fn game(self) -> GameProfile {
        self.profile
    }

    /// The entries so far.
    pub closed spec fn seen(self) -> Seq<TableEntryView> {
        entry_views(self.entries@)
    }

    /// Whether the look is at an entry of the table.
    pub closed spec fn wf(self) -> bool {
        match self.stage {
            InspectStage::Entry => self.entries@.len() < self.total,
            InspectStage::Layer { pointer } => self.entries@.len() < self.total && user_pointer(
                pointer,
            ),
            InspectStage::Done => self.entries@.len() == self.total,
        }
    }

    /// Where the current entry stands.
    spec fn address(self) -> u64 {
        plus(self.table, (8 * self.entries@.len()) as u64)
    }

    /// The next request; none when the look has ended.
    pub closed spec fn asks(self) -> Option<RequestView> {
        match self.stage {
            InspectStage::Entry => Some(one_read(self.address(), 8)),
            InspectStage::Layer { pointer } => Some(
                RequestView::Read(inspected_spans(self.profile, pointer)),
            ),
            InspectStage::Done => None,
        }
    }

    /// The entries in the end where requests are answered from now on as in `w`.
    pub closed spec fn expects(self, w: World) -> Seq<TableEntryView> {
        Seq::new(
            self.total as nat,
            |i: int|
                if i < self.entries@.len() {
                    self.entries@[i]@
                } else if i == self.entries@.len() && self.stage is Layer {
                    entry_with(w, self.profile, i, self.address(), self.stage->pointer)
                } else {
                    entry_at(w, self.profile, self.table, i)
                },
        )
    }

    /// How far the look still has to go.
    pub closed spec fn measure(self) -> nat {
        match self.stage {
            InspectStage::Entry => (2 * (self.total - self.entries@.len()) + 1) as nat,
            InspectStage::Layer { pointer } => (2 * (self.total - self.entries@.len())) as nat,
            InspectStage::Done => 0,
        }
    }

    /// A look at the first entries of the table at `table`: at most `most` and no
    /// more than `layer_count`.
    pub fn new(profile: GameProfile, table: u64, layer_count: u32, most: u32) -> (r: Inspection)
        ensures
            r.wf(),
            r.game() == profile,
            forall|w: World| #[trigger]
                r.expects(w) == inspected(w, profile, table, layer_count, most),
    {
        let total: u32 = if layer_count < most {
            layer_count
        } else {
            most
        };
        let stage = if total > 0 {
            InspectStage::Entry
        } else {
            InspectStage::Done
        };
        let r = Inspection { profile, table, total, stage, entries: Vec::new() };
        assert forall|w: World| #[trigger] r.expects(w) == inspected(
            w,
            profile,
            table,
            layer_count,
            most,
        ) by {
            assert(r.expects(w) =~= inspected(w, profile, table, layer_count, most));
        }
        r
    }

    /// The next request; none when the look has ended.
    pub fn request(&self) -> (r: Option<Request>)
        requires
            self.wf(),
        ensures
            asked(r) == self.asks(),
    {
        match self.stage {
            InspectStage::Entry => Some(
                read_one(offset_by(self.table, 8 * (self.entries.len() as u64)), 8),
            ),
            InspectStage::Layer { pointer } => {
                let mut spans: Vec<Span> = Vec::new();
                push_layer_spans(&mut spans, &self.profile, pointer);
                spans.push(Span { address: pointer, size: 0x80 });
                assert(spans@ =~= inspected_spans(self.profile, pointer));
                Some(Request::Read(spans))
            },
            InspectStage::Done => None,
        }
    }

    /// Adds an entry.
    fn push_entry(&mut self, pointer: u64, layer: Option<InspectedLayer>)
        requires
            old(self).entries@.len() < old(self).total,
        ensures
            final(self).wf(),
            final(self).profile == old(self).profile,
            final(self).table == old(self).table,
            final(self).total == old(self).total,
            !(final(self).stage is Layer),
            final(self).measure() <= 2 * (old(self).total - old(self).entries@.len()) - 1,
            final(self).entries@.len() == old(self).entries@.len() + 1,
            final(self).entries@.drop_last() == old(self).entries@,
            final(self).entries@.last()@ == (TableEntryView {
                index: old(self).entries@.len() as int,
                address: old(self).address(),
                pointer,
                layer: match layer {
                    Some(l) => Some((l.look, l.raw@)),
                    None => None,
                },
            }),
    {
        let index: u32 = self.entries.len() as u32;
        let address = offset_by(self.table, 8 * (index as u64));
        let ghost before = self.entries@;
        self.entries.push(TableEntry { index, address, pointer, layer });
        assert(self.entries@.drop_last() =~= before);
        self.stage = if self.entries.len() as u32 == self.total {
            InspectStage::Done
        } else {
            InspectStage::Entry
        };
    }

    /// Takes the answer to the request.
    pub fn answer(&mut self, reply: Reply)
        requires
            old(self).wf(),
            old(self).asks() matches Some(request) && fits(request, reply),
        ensures
            final(self).wf(),
            final(self).game() == old(self).game(),
            final(self).measure() < old(self).measure(),
            forall|w: World|
                answered(w, old(self).asks().unwrap(), reply) ==> #[trigger] final(self).expects(w)
                    == old(self).expects(w),
    {
        let ghost start = *self;
        let ghost given = reply;
        if let Reply::Blocks(blocks) = reply {
            match self.stage {
                InspectStage::Entry => {
                    let pointer = read_u64(&blocks[0]);
                    if is_user_pointer(pointer) {
                        self.stage = InspectStage::Layer { pointer };
                    } else {
                        self.push_entry(pointer, None);
                    }
                    assert forall|w: World|
                        answered(w, start.asks().unwrap(), given) implies #[trigger] self.expects(w)
                        == start.expects(w) by {
                        assert(blocks@[0]@ == (w.read)(start.address(), 8));
                        assert forall|i: int| 0 <= i < start.total implies self.expects(w)[i]
                            == start.expects(w)[i] by {
                            if i < start.entries@.len() {
                                assert(self.entries@[i] == start.entries@[i]);
                            }
                        }
                        assert(self.expects(w) =~= start.expects(w));
                    }
                },
                InspectStage::Layer { pointer } => {
                    let mut blocks = blocks;
                    let look = score_layer_pointer(&blocks, 0);
                    let ghost all = blocks@;
                    if let Some(raw) = blocks.pop() {
                        self.push_entry(pointer, Some(InspectedLayer { look, raw }));
                    }
                    assert forall|w: World|
                        answered(w, start.asks().unwrap(), given) implies #[trigger] self.expects(w)
                        == start.expects(w) by {
                        let spans = inspected_spans(start.profile, pointer);
                        assert(spans[0] == layer_spans(start.profile, pointer)[0]);
                        assert(spans[1] == layer_spans(start.profile, pointer)[1]);
                        assert(spans[2] == layer_spans(start.profile, pointer)[2]);
                        assert(spans[3] == layer_spans(start.profile, pointer)[3]);
                        assert(spans[4] == layer_spans(start.profile, pointer)[4]);
                        assert(bytes_from(all, 0) == layer_bytes(w, start.profile, pointer));
                        assert(all[5]@ == (w.read)(pointer, 0x80));
                        assert forall|i: int| 0 <= i < start.total implies self.expects(w)[i]
                            == start.expects(w)[i] by {
                            if i < start.entries@.len() {
                                assert(self.entries@.drop_last()[i] == start.entries@[i]);
                            }
                        }
                        assert(self.expects(w) =~= start.expects(w));
                    }
                },
                InspectStage::Done => {},
            }
        }
    }

    /// The profile that the run goes by.
    pub fn profile(&self) -> (r: &GameProfile)
        ensures
            *r == self.game(),
    {
        &self.profile
    }

    /// The entries in the end.
    pub fn entries(&self) -> (r: &Vec<TableEntry>)
        requires
            self.wf(),
            self.asks() is None,
        ensures
            forall|w: World| entry_views(r@) == #[trigger] self.expects(w),
    {
        assert forall|w: World| entry_views(self.entries@) == #[trigger] self.expects(w) by {
            assert(entry_views(self.entries@) =~= self.expects(w));
        }
        &self.entries
    }

    /// A look at a table asks for no write.
    pub proof fn law_inspection_only_reads(self)
        ensures
            self.asks() matches Some(request) ==> !(request is Write),
    {
    }
}

/// Starts a look at the first entries of the table at `table_address` in the process
/// that is meant among the games `found`, and names the process.
pub fn inspect_table(
    game: Option<&str>,
    pid_override: Option<u32>,
    table_address: u64,
    layer_count: u32,
    max_layers: u32,
    found: &Vec<GameProc>,
) -> (r: Result<(u32, Inspection), StartError>)
    ensures
        match r {
            Ok((pid, i)) => {
                &&& resolved(games(found@), optional_text(game), pid_override) matches Some(
                    (pid1, key),
                )
                &&& pid1 == pid
                &&& profile_of(key, i.game())
                &&& i.wf()
                &&& forall|w: World| #[trigger]
                    i.expects(w) == inspected(w, i.game(), table_address, layer_count, max_layers)
            },
            Err(e) => start_refusal(resolved(games(found@), optional_text(game), pid_override))
                == Some(e@),
        },
{
    match find_target(found, game, pid_override) {
        Ok((pid, key, profile)) => Ok(
            (pid, Inspection::new(profile, table_address, layer_count, max_layers)),
        ),
        Err(e) => Err(e),
    }
}

/// The texts of a list, as characters.
pub open spec fn lines_of(v: Seq<String>) -> Seq<Seq<char>> {
    v.map_values(|s: String| s@)
}

/// The position of a row: in base 16 with at least three digits.
pub open spec fn row_position(n: nat) -> Seq<char> {
    if n < 16 {
        "00"@ + hexadecimal(n)
    } else if n < 256 {
        "0"@ + hexadecimal(n)
    } else {
        hexadecimal(n)
    }
}

/// The bytes of row `k`, sixteen to a row.
pub open spec fn row_bytes(raw: Seq<u8>, k: int) -> Seq<u8> {
    raw.subrange(
        16 * k,
        if 16 * k + 16 < raw.len() {
            16 * k + 16
        } else {
            raw.len() as int
        },
    )
}

/// Row `k` of the bytes of a layer.
pub open spec fn row_line(raw: Seq<u8>, k: int) -> Seq<char> {
    "  +0x"@ + row_position((16 * k) as nat) + ": "@ + bytes_text(row_bytes(raw, k))
}

/// What is reported of an entry; the position and the scale of its layer as the
/// program writes them.
pub open spec fn entry_lines(e: TableEntryView, position: Seq<char>, scale: Seq<char>) -> Seq<
    Seq<char>,
> {
    let first = "table["@ + decimal(e.index as nat) + "] @0x"@ + hexadecimal(e.address as nat)
        + " -> 0x"@ + hexadecimal(e.pointer as nat);
    match e.layer {
        None => seq![first],
        Some((look, raw)) => seq![
            first,
            "  layer score="@ + decimal(look_score(look) as nat) + " "@ + look_text(
                look,
                position,
                scale,
            ),
        ] + Seq::new(((raw.len() + 15) / 16) as nat, |k: int| row_line(raw, k)),
    }
}

/// One row of the bytes of a layer.
fn describe_row(raw: &Vec<u8>, k: usize) -> (r: String)
    requires
        16 * k < raw.len(),
    ensures
        r@ == row_line(raw@, k as int),
{
    let from: usize = 16 * k;
    let to: usize = if raw.len() - from > 16 {
        from + 16
    } else {
        raw.len()
    };
    let mut s = "  +0x".to_string();
    let ghost start = s@;
    if from < 16 {
        s.append("00");
        push_hex(&mut s, from as u64);
        assert(s@ =~= start + row_position(from as nat));
    } else if from < 256 {
        s.append("0");
        push_hex(&mut s, from as u64);
        assert(s@ =~= start + row_position(from as nat));
    } else {
        push_hex(&mut s, from as u64);
    }
    s.append(": ");
    let mut row: Vec<u8> = Vec::new();
    for i in from..to
        invariant
            from <= i <= to <= raw@.len(),
            row@ =~= raw@.subrange(from as int, i as int),
    {
        row.push(raw[i]);
    }
    push_bytes(&mut s, row.as_slice());
    s
}

/// What is reported of an entry.
pub fn describe_entry(e: &TableEntry, position: &str, scale: &str) -> (r: Vec<String>)
    ensures
        lines_of(r@) == entry_lines(e@, position@, scale@),
{
    let mut out: Vec<String> = Vec::new();
    let mut s = "table[".to_string();
    push_decimal(&mut s, e.index as u64);
    s.append("] @0x");
    push_hex(&mut s, e.address);
    s.append(" -> 0x");
    push_hex(&mut s, e.pointer);
    let ghost first = s@;
    out.push(s);
    assert(lines_of(out@) =~= seq![first]);
    if let Some(l) = &e.layer {
        let mut t = "  layer score=".to_string();
        push_decimal(&mut t, l.look.score() as u64);
        t.append(" ");
        let look = describe_look(&l.look, position, scale);
        t.append(look.as_str());
        let ghost second = t@;
        out.push(t);
        assert(lines_of(out@) =~= seq![first, second]);
        let rows: usize = l.raw.len() / 16 + (if l.raw.len() % 16 > 0 {
            1usize
        } else {
            0usize
        });
        let ghost all = Seq::new(
            ((l.raw@.len() + 15) / 16) as nat,
            |k: int| row_line(l.raw@, k),
        );
        assert(seq![first, second] + all.take(0) =~= seq![first, second]);
        for k in 0..rows
            invariant
                rows == (l.raw@.len() + 15) / 16,
                all == Seq::new(
                    ((l.raw@.len() + 15) / 16) as nat,
                    |k: int| row_line(l.raw@, k),
                ),
                lines_of(out@) == seq![first, second] + all.take(k as int),
        {
            let ghost before = out@;
            out.push(describe_row(&l.raw, k));
            assert(lines_of(out@) =~= lines_of(before).push(out@.last()@));
            assert(seq![first, second] + all.take(k + 1) =~= (seq![first, second] + all.take(
                k as int,
            )).push(all[k as int]));
        }
        assert(all.take(rows as int) =~= all);
    }
    out
}

/// What is said before a look at a table.
pub fn inspection_heading(table: u64, layer_count: u32) -> (r: String)
    ensures
        r@ == "Inspecting table=0x"@ + hexadecimal(table as nat) + " layers="@ + decimal(
            layer_count as nat,
        ),
{
    let mut s = "Inspecting table=0x".to_string();
    push_hex(&mut s, table);
    s.append(" layers=");
    push_decimal(&mut s, layer_count as u64);
    s
}

/// What is said after a look at a table.
pub fn inspection_summary(v: &Vec<TableEntry>) -> (r: String)
    ensures
        r@ == "Valid scored layer entries: "@ + decimal(
            scored_entries(entry_views(v@)) as nat,
        ),
{
    let mut s = "Valid scored layer entries: ".to_string();
    push_decimal(&mut s, count_scored(v) as u64);
    s
}

} // verus!
