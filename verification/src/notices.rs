//! What the runs report while they work.

use vstd::prelude::*;
use vstd::string::*;

use crate::device::{offset_by, plus};
use crate::layers::{look_score, LayerLook};
use crate::locator::Session;
use crate::profiles::GameProfile;
use crate::table::Sample;
use crate::text::{
    byte_text, decimal, hexadecimal, push_byte, push_decimal, push_hex, push_signed, signed_decimal,
};

verus! {

/// One line of a report.
#[derive(Clone, Copy, Debug, PartialEq, Eq)]
pub enum Notice {
    /// The main module of the process cannot be reached.
    BaseUnavailable,
    /// The search for the livery starts.
    ScanningFor,
    /// A range behind the main module is searched.
    ScanningRange { offset: u64, size: u64 },
    /// No signature was found.
    UnsupportedVersion,
    /// What may be missing then.
    NeedsNewSignature,
    /// Signature `pattern` of the profile was found.
    SignatureAt { pattern: usize, offset: u64 },
    /// A signature does not equal its mirror.
    ValidationFailed { offset: u64 },
    /// The pointer to the root of the liveries was read.
    RootPointerAt { offset: u64 },
    /// The editor is not open.
    MenuNotDetected,
    /// The process that was to be diagnosed cannot be reached.
    ProcessUnavailable { pid: u32 },
    /// A diagnosis starts.
    Diagnostics { pid: u32 },
    /// Where the main module is.
    BaseAt { base: u64 },
    /// A range without the signature.
    NoMatch { offset: u64, size: u64 },
    /// Whether a signature equals its mirror.
    Mirror { equal: bool },
    /// The pointer to the root of the liveries.
    RootPointer { value: u64 },
    /// The pointer to the editor.
    EditorPointer { value: u64 },
    /// The pointer to the livery.
    LiveryPointer { value: u64 },
    /// A diagnosis without a chain of pointers that holds.
    NoValidChain,
    /// The game that an import writes into.
    GameRunning { pid: u32 },
    /// The number of layers that the user gave is used.
    TemplateCount { count: u32, address: u64 },
    /// The number of layers was read as two bytes.
    ManualShortCount { address: u64, count: u32 },
    /// The number of layers was read as four bytes.
    ManualCount { address: u64, count: u32 },
    /// The table of layers was read through a pointer.
    ManualTable { field: u64, table: u64 },
    /// Where the livery is.
    LiveryAt { address: u64 },
    /// Where the group of the livery is.
    GroupAt { address: u64 },
    /// The template has too few layers.
    ReadInstructions,
    /// What to load then.
    LoadUngrouped,
    /// What to enter then.
    EnterExactCount,
    /// Where the table of layers is.
    TableAt { address: u64 },
    /// A layer is written.
    WritingLayer { layer: u32, total: u32 },
    /// A write failed.
    WriteFailed { slot: u32 },
    /// What an early failure means.
    LikelyWrongTable,
    /// What to use then.
    UseLargerTemplate,
    /// What to do then.
    LocateAgain,
    /// What a late failure means.
    PossiblyGrouped,
    /// What to check then.
    CheckEditor,
    /// The import is complete.
    Done,
    /// The colour that goes with the image on a car.
    BackgroundColor { r: u8, g: u8, b: u8 },
    /// A search for the layers starts.
    AutoLocating { count: u32 },
    /// The search took too long.
    StoppedAfterSeconds,
    /// A number of layers is searched for.
    ScanningForCount { count: u32 },
    /// The number of layers stands in too many places.
    StoppedAfterHits,
    /// A group of layers was found.
    LayoutCandidate { group: u64, count: u64, table: u64, validated: u32, layers: u32 },
    /// The number of layers is another than the user entered.
    LockedOnto { matched: u32, entered: u32 },
    /// One of the best candidates.
    Candidate { score: i64, group: u64, count: u64, field: u64, table: u64, validated: u32 },
    /// An entry of the table of a candidate.
    TableSample { sample: Sample },
    /// The session that is kept.
    SavedSession { session: Session },
}

/// Whether the report `all` begins with the report `first`.
#[verifier::opaque]
pub open spec fn begins(first: Seq<Notice>, all: Seq<Notice>) -> bool {
    first.is_prefix_of(all)
}

/// A report begins with itself.
pub broadcast proof fn lemma_begins_itself(a: Seq<Notice>)
    ensures
        #[trigger] begins(a, a),
{
    reveal(begins);
    assert(a =~= a.subrange(0, a.len() as int));
}

/// One more notice changes nothing in the beginning.
pub broadcast proof fn lemma_begins_push(a: Seq<Notice>, b: Seq<Notice>, n: Notice)
    requires
        begins(a, b),
    ensures
        #[trigger] begins(a, b.push(n)),
{
    reveal(begins);
    assert(b.subrange(0, a.len() as int) =~= b.push(n).subrange(0, a.len() as int));
}

/// More notices change nothing in the beginning.
pub broadcast proof fn lemma_begins_add(a: Seq<Notice>, b: Seq<Notice>, c: Seq<Notice>)
    requires
        begins(a, b),
    ensures
        #[trigger] begins(a, b + c),
{
    reveal(begins);
    assert(b.subrange(0, a.len() as int) =~= (b + c).subrange(0, a.len() as int));
}

/// What begins the beginning begins the whole.
pub proof fn lemma_begins_chain(a: Seq<Notice>, b: Seq<Notice>, c: Seq<Notice>)
    requires
        begins(a, b),
        begins(b, c),
    ensures
        begins(a, c),
{
    reveal(begins);
    assert(a =~= c.subrange(0, a.len() as int)) by {
        assert(a =~= b.subrange(0, a.len() as int));
        assert(b =~= c.subrange(0, b.len() as int));
        assert forall|i: int| 0 <= i < a.len() implies a[i] == c[i] by {
            assert(a[i] == b.subrange(0, a.len() as int)[i]);
            assert(b[i] == c.subrange(0, b.len() as int)[i]);
        }
    }
}

pub broadcast group group_begins {
    lemma_begins_itself,
    lemma_begins_push,
    lemma_begins_add,
}

/// The bytes of a signature, in hexadecimal with spaces between them.
pub open spec fn bytes_text(b: Seq<u8>) -> Seq<char>
    decreases b.len(),
{
    if b.len() == 0 {
        Seq::empty()
    } else if b.len() == 1 {
        byte_text(b[0])
    } else {
        bytes_text(b.drop_last()) + " "@ + byte_text(b.last())
    }
}

/// Signature `i` of a profile; nothing where there is none.
pub open spec fn signature_text(p: GameProfile, i: int) -> Seq<char> {
    if 0 <= i < p.signature_patterns@.len() {
        bytes_text(p.signature_patterns@[i]@)
    } else {
        Seq::empty()
    }
}

/// What follows `before` in a list with semicolons.
pub open spec fn listed(before: Seq<char>, empty: bool, part: Seq<char>) -> Seq<char> {
    if empty {
        before + part
    } else {
        before + "; "@ + part
    }
}

/// The fields that look as those of a layer do, with semicolons between them; the
/// numbers of the first two as the program writes them.
pub open spec fn look_text(l: LayerLook, position: Seq<char>, scale: Seq<char>) -> Seq<char> {
    let a = if l.position is Some {
        "pos="@ + position
    } else {
        Seq::empty()
    };
    let none_a = l.position is None;
    let b = if l.scale is Some {
        listed(a, none_a, "scale="@ + scale)
    } else {
        a
    };
    let none_b = none_a && l.scale is None;
    let c = match l.color {
        Some(x) => listed(
            b,
            none_b,
            "color="@ + byte_text(x.r) + " "@ + byte_text(x.g) + " "@ + byte_text(x.b) + " "@
                + byte_text(x.a),
        ),
        None => b,
    };
    let none_c = none_b && l.color is None;
    let d = match l.shape {
        Some(x) => listed(c, none_c, "shape="@ + decimal(x as nat)),
        None => c,
    };
    let none_d = none_c && l.shape is None;
    match l.mask {
        Some(x) => listed(d, none_d, "mask="@ + decimal(x as nat)),
        None => d,
    }
}

/// The text of a notice. What only the program can write comes with it: `first` is
/// the message of the system, the position of a layer or the colour of a car, and
/// `second` is the scale of a layer.
pub open spec fn notice_text(n: Notice, p: GameProfile, first: Seq<char>, second: Seq<char>) -> Seq<
    char,
> {
    match n {
        Notice::BaseUnavailable => "Unable to open process. Try running as administrator. "@ + first,
        Notice::ScanningFor => "Attempting to scan for "@ + p.label@ + " livery address:"@,
        Notice::ScanningRange { offset, size } => "Scanning "@ + p.label@ + " Base+"@ + hexadecimal(offset as nat) + "..Base+"@ + hexadecimal(plus(offset, size) as nat),
        Notice::UnsupportedVersion => "Unsupported "@ + p.label@ + " version and cannot find a matching pattern."@,
        Notice::NeedsNewSignature => "FH6 support may need a new signature or offsets for this game build."@,
        Notice::SignatureAt { pattern, offset } => "Signature "@ + signature_text(p, pattern as int) + " found at Base+"@ + hexadecimal(offset as nat),
        Notice::ValidationFailed { offset } => "Matching signature failed validation at Base+"@ + hexadecimal(offset as nat),
        Notice::RootPointerAt { offset } => "Found livery root pointer at Base+"@ + hexadecimal(offset as nat),
        Notice::MenuNotDetected => "Create Vinyl Group menu not detected"@,
        Notice::ProcessUnavailable { pid } => "Unable to open process "@ + decimal(pid as nat) + ". Try running as administrator. "@ + first,
        Notice::Diagnostics { pid } => p.label@ + " diagnostics for pid "@ + decimal(pid as nat),
        Notice::BaseAt { base } => "Base address: 0x"@ + hexadecimal(base as nat),
        Notice::NoMatch { offset, size } => "No match in Base+"@ + hexadecimal(offset as nat) + "..Base+"@ + hexadecimal(plus(offset, size) as nat),
        Notice::Mirror { equal } => "Validation mirror: "@ + (if equal {
                "OK"@
            } else {
                "FAILED"@
            }),
        Notice::RootPointer { value } => "Root pointer: 0x"@ + hexadecimal(value as nat),
        Notice::EditorPointer { value } => "Editor pointer: 0x"@ + hexadecimal(value as nat),
        Notice::LiveryPointer { value } => "Livery pointer: 0x"@ + hexadecimal(value as nat),
        Notice::NoValidChain => "No validated livery pointer chain found."@,
        Notice::GameRunning { pid } => p.label@ + " (pid "@ + decimal(pid as nat) + ")"@,
        Notice::TemplateCount { count, address } => "Using template layer count "@ + decimal(count as nat) + " (address 0x"@ + hexadecimal(address as nat) + ")"@,
        Notice::ManualShortCount { address, count } => "Manual FH6 layer count address 0x"@ + hexadecimal(address as nat) + " -> "@ + decimal(count as nat) + " (u16)"@,
        Notice::ManualCount { address, count } => "Manual layer count address 0x"@ + hexadecimal(address as nat) + " -> "@ + decimal(count as nat),
        Notice::ManualTable { field, table } => "Manual table pointer field 0x"@ + hexadecimal(field as nat) + " -> 0x"@ + hexadecimal(table as nat),
        Notice::LiveryAt { address } => "CLivery found at "@ + hexadecimal(address as nat),
        Notice::GroupAt { address } => "CLiveryGroup found at "@ + hexadecimal(address as nat),
        Notice::ReadInstructions => "READ THE INSTRUCTIONS"@,
        Notice::LoadUngrouped => "Load an UNGROUPED vinyl group of spheres (>=100; 500-3000 recommended) first,"@,
        Notice::EnterExactCount => "and enter the EXACT current layer count."@,
        Notice::TableAt { address } => "CLiveryLayer table found at "@ + hexadecimal(address as nat),
        Notice::WritingLayer { layer, total } => "Writing layer "@ + decimal(layer as nat) + "/"@ + decimal(total as nat),
        Notice::WriteFailed { slot } => "Write failed at slot "@ + decimal(slot as nat) + "."@,
        Notice::LikelyWrongTable => "This is most likely a WRONG located table (false positive), not a grouped vinyl."@,
        Notice::UseLargerTemplate => "Use an ungrouped template with >=500 layers (1000+ reliable on FH6),"@,
        Notice::LocateAgain => "enter the EXACT current layer count, and re-run Auto-locate."@,
        Notice::PossiblyGrouped => "Possible grouped vinyl: make sure the template is ungrouped,"@,
        Notice::CheckEditor => "and that you are in the Vinyl Group Editor (not applying a vinyl/livery)."@,
        Notice::Done => "DONE!"@,
        Notice::BackgroundColor { .. } => "The ideal background color for the car is:\n"@ + first,
        Notice::AutoLocating { count } => "Auto-locating FH6 layer group for count "@ + decimal(count as nat) + " (u16_group_layout)..."@,
        Notice::StoppedAfterSeconds => "Stopped FH6 scan after 45s."@,
        Notice::ScanningForCount { count } => "Scanning for layer count "@ + decimal(count as nat) + "..."@,
        Notice::StoppedAfterHits => "Stopped FH6 scan after 200000 count hits."@,
        Notice::LayoutCandidate { group, count, table, validated, layers } => "layout candidate group=0x"@ + hexadecimal(group as nat) + " count=0x"@ + hexadecimal(count as nat) + " table=0x"@ + hexadecimal(table as nat) + " validated="@ + decimal(validated as nat) + "/"@ + decimal(layers as nat),
        Notice::LockedOnto { matched, entered } => "Locked onto actual layer count "@ + decimal(matched as nat) + " (you entered "@ + decimal(entered as nat) + ")."@,
        Notice::Candidate { score, group, count, field, table, validated } => "candidate score="@ + signed_decimal(score as int) + " group=0x"@ + hexadecimal(group as nat) + " count=0x"@ + hexadecimal(count as nat) + " tableField=0x"@ + hexadecimal(field as nat) + " table=0x"@ + hexadecimal(table as nat) + " validated="@ + decimal(validated as nat),
        Notice::TableSample { sample } => "  table["@ + decimal(sample.index as nat) + "] ptr=0x"@ + hexadecimal(sample.pointer as nat) + " score="@ + decimal(look_score(sample.look) as nat) + " "@ + look_text(sample.look, first, second),
        Notice::SavedSession { session } => "Saved FH6 session: layer_count="@ + decimal(session.layer_count as nat) + " group=0x"@ + hexadecimal(session.group_address as nat) + " count=0x"@ + hexadecimal(session.count_address as nat) + " table=0x"@ + hexadecimal(session.table_address as nat) + " score="@ + signed_decimal(session.score as int),
    }
}

/// Adds the bytes in hexadecimal with spaces between them.
pub fn push_bytes(s: &mut String, b: &[u8])
    ensures
        final(s)@ == old(s)@ + bytes_text(b@),
{
    assert(b@.take(0) =~= Seq::<u8>::empty());
    assert(s@ =~= old(s)@ + bytes_text(b@.take(0)));
    for i in 0..b.len()
        invariant
            s@ == old(s)@ + bytes_text(b@.take(i as int)),
    {
        if i > 0 {
            s.append(" ");
        }
        push_byte(s, b[i]);
        assert(b@.take(i + 1).drop_last() =~= b@.take(i as int));
        assert(s@ =~= old(s)@ + bytes_text(b@.take(i + 1)));
    }
    assert(b@.take(b@.len() as int) =~= b@);
}

/// Adds signature `i` of a profile.
fn push_signature(s: &mut String, p: &GameProfile, i: usize)
    ensures
        final(s)@ == old(s)@ + signature_text(*p, i as int),
{
    if i < p.signature_patterns.len() {
        push_bytes(s, p.signature_patterns[i]);
    } else {
        assert(s@ =~= old(s)@ + signature_text(*p, i as int));
    }
}

/// Adds a part to a list with semicolons.
fn push_listed(s: &mut String, empty: bool, part: &str)
    ensures
        final(s)@ == listed(old(s)@, empty, part@),
{
    if !empty {
        s.append("; ");
    }
    s.append(part);
}

/// The fields that look as those of a layer do, with semicolons between them.
pub fn describe_look(l: &LayerLook, position: &str, scale: &str) -> (r: String)
    ensures
        r@ == look_text(*l, position@, scale@),
{
    let mut s = String::new();
    let mut empty = true;
    if l.position.is_some() {
        s.append("pos=");
        s.append(position);
        empty = false;
        assert(s@ =~= "pos="@ + position@);
    } else {
        assert(s@ =~= Seq::<char>::empty());
    }
    if l.scale.is_some() {
        let mut part = "scale=".to_string();
        part.append(scale);
        push_listed(&mut s, empty, part.as_str());
        empty = false;
    }
    if let Some(c) = l.color {
        let mut part = "color=".to_string();
        push_byte(&mut part, c.r);
        part.append(" ");
        push_byte(&mut part, c.g);
        part.append(" ");
        push_byte(&mut part, c.b);
        part.append(" ");
        push_byte(&mut part, c.a);
        push_listed(&mut s, empty, part.as_str());
        empty = false;
    }
    if let Some(x) = l.shape {
        let mut part = "shape=".to_string();
        push_decimal(&mut part, x as u64);
        push_listed(&mut s, empty, part.as_str());
        empty = false;
    }
    if let Some(x) = l.mask {
        let mut part = "mask=".to_string();
        push_decimal(&mut part, x as u64);
        push_listed(&mut s, empty, part.as_str());
    }
    s
}

/// Adds the fields that look as those of a layer do.
fn push_look(s: &mut String, l: &LayerLook, position: &str, scale: &str)
    ensures
        final(s)@ == old(s)@ + look_text(*l, position@, scale@),
{
    let text = describe_look(l, position, scale);
    s.append(text.as_str());
}

impl Notice {
    /// The text of the notice.
    pub fn text(&self, p: &GameProfile, first: &str, second: &str) -> (r: String)
        ensures
            r@ == notice_text(*self, *p, first@, second@),
    {
        match self {
            Notice::BaseUnavailable => {
                let mut s = "Unable to open process. Try running as administrator. ".to_string();
                s.append(first);
                s
            },
            Notice::ScanningFor => {
                let mut s = "Attempting to scan for ".to_string();
                s.append(p.label);
                s.append(" livery address:");
                s
            },
            Notice::ScanningRange { offset, size } => {
                let mut s = "Scanning ".to_string();
                s.append(p.label);
                s.append(" Base+");
                push_hex(&mut s, *offset);
                s.append("..Base+");
                push_hex(&mut s, offset_by(*offset, *size));
                s
            },
            Notice::UnsupportedVersion => {
                let mut s = "Unsupported ".to_string();
                s.append(p.label);
                s.append(" version and cannot find a matching pattern.");
                s
            },
            Notice::NeedsNewSignature => "FH6 support may need a new signature or offsets for this game build.".to_string(),
            Notice::SignatureAt { pattern, offset } => {
                let mut s = "Signature ".to_string();
                push_signature(&mut s, p, *pattern);
                s.append(" found at Base+");
                push_hex(&mut s, *offset);
                s
            },
            Notice::ValidationFailed { offset } => {
                let mut s = "Matching signature failed validation at Base+".to_string();
                push_hex(&mut s, *offset);
                s
            },
            Notice::RootPointerAt { offset } => {
                let mut s = "Found livery root pointer at Base+".to_string();
                push_hex(&mut s, *offset);
                s
            },
            Notice::MenuNotDetected => "Create Vinyl Group menu not detected".to_string(),
            Notice::ProcessUnavailable { pid } => {
                let mut s = "Unable to open process ".to_string();
                push_decimal(&mut s, *pid as u64);
                s.append(". Try running as administrator. ");
                s.append(first);
                s
            },
            Notice::Diagnostics { pid } => {
                let mut s = p.label.to_string();
                s.append(" diagnostics for pid ");
                push_decimal(&mut s, *pid as u64);
                s
            },
            Notice::BaseAt { base } => {
                let mut s = "Base address: 0x".to_string();
                push_hex(&mut s, *base);
                s
            },
            Notice::NoMatch { offset, size } => {
                let mut s = "No match in Base+".to_string();
                push_hex(&mut s, *offset);
                s.append("..Base+");
                push_hex(&mut s, offset_by(*offset, *size));
                s
            },
            Notice::Mirror { equal } => {
                let mut s = "Validation mirror: ".to_string();
                s.append(
                    if *equal {
                        "OK"
                    } else {
                        "FAILED"
                    },
                );
                s
            },
            Notice::RootPointer { value } => {
                let mut s = "Root pointer: 0x".to_string();
                push_hex(&mut s, *value);
                s
            },
            Notice::EditorPointer { value } => {
                let mut s = "Editor pointer: 0x".to_string();
                push_hex(&mut s, *value);
                s
            },
            Notice::LiveryPointer { value } => {
                let mut s = "Livery pointer: 0x".to_string();
                push_hex(&mut s, *value);
                s
            },
            Notice::NoValidChain => "No validated livery pointer chain found.".to_string(),
            Notice::GameRunning { pid } => {
                let mut s = p.label.to_string();
                s.append(" (pid ");
                push_decimal(&mut s, *pid as u64);
                s.append(")");
                s
            },
            Notice::TemplateCount { count, address } => {
                let mut s = "Using template layer count ".to_string();
                push_decimal(&mut s, *count as u64);
                s.append(" (address 0x");
                push_hex(&mut s, *address);
                s.append(")");
                s
            },
            Notice::ManualShortCount { address, count } => {
                let mut s = "Manual FH6 layer count address 0x".to_string();
                push_hex(&mut s, *address);
                s.append(" -> ");
                push_decimal(&mut s, *count as u64);
                s.append(" (u16)");
                s
            },
            Notice::ManualCount { address, count } => {
                let mut s = "Manual layer count address 0x".to_string();
                push_hex(&mut s, *address);
                s.append(" -> ");
                push_decimal(&mut s, *count as u64);
                s
            },
            Notice::ManualTable { field, table } => {
                let mut s = "Manual table pointer field 0x".to_string();
                push_hex(&mut s, *field);
                s.append(" -> 0x");
                push_hex(&mut s, *table);
                s
            },
            Notice::LiveryAt { address } => {
                let mut s = "CLivery found at ".to_string();
                push_hex(&mut s, *address);
                s
            },
            Notice::GroupAt { address } => {
                let mut s = "CLiveryGroup found at ".to_string();
                push_hex(&mut s, *address);
                s
            },
            Notice::ReadInstructions => "READ THE INSTRUCTIONS".to_string(),
            Notice::LoadUngrouped => "Load an UNGROUPED vinyl group of spheres (>=100; 500-3000 recommended) first,".to_string(),
            Notice::EnterExactCount => "and enter the EXACT current layer count.".to_string(),
            Notice::TableAt { address } => {
                let mut s = "CLiveryLayer table found at ".to_string();
                push_hex(&mut s, *address);
                s
            },
            Notice::WritingLayer { layer, total } => {
                let mut s = "Writing layer ".to_string();
                push_decimal(&mut s, *layer as u64);
                s.append("/");
                push_decimal(&mut s, *total as u64);
                s
            },
            Notice::WriteFailed { slot } => {
                let mut s = "Write failed at slot ".to_string();
                push_decimal(&mut s, *slot as u64);
                s.append(".");
                s
            },
            Notice::LikelyWrongTable => "This is most likely a WRONG located table (false positive), not a grouped vinyl.".to_string(),
            Notice::UseLargerTemplate => "Use an ungrouped template with >=500 layers (1000+ reliable on FH6),".to_string(),
            Notice::LocateAgain => "enter the EXACT current layer count, and re-run Auto-locate.".to_string(),
            Notice::PossiblyGrouped => "Possible grouped vinyl: make sure the template is ungrouped,".to_string(),
            Notice::CheckEditor => "and that you are in the Vinyl Group Editor (not applying a vinyl/livery).".to_string(),
            Notice::Done => "DONE!".to_string(),
            Notice::BackgroundColor { .. } => {
                let mut s = "The ideal background color for the car is:\n".to_string();
                s.append(first);
                s
            },
            Notice::AutoLocating { count } => {
                let mut s = "Auto-locating FH6 layer group for count ".to_string();
                push_decimal(&mut s, *count as u64);
                s.append(" (u16_group_layout)...");
                s
            },
            Notice::StoppedAfterSeconds => "Stopped FH6 scan after 45s.".to_string(),
            Notice::ScanningForCount { count } => {
                let mut s = "Scanning for layer count ".to_string();
                push_decimal(&mut s, *count as u64);
                s.append("...");
                s
            },
            Notice::StoppedAfterHits => "Stopped FH6 scan after 200000 count hits.".to_string(),
            Notice::LayoutCandidate { group, count, table, validated, layers } => {
                let mut s = "layout candidate group=0x".to_string();
                push_hex(&mut s, *group);
                s.append(" count=0x");
                push_hex(&mut s, *count);
                s.append(" table=0x");
                push_hex(&mut s, *table);
                s.append(" validated=");
                push_decimal(&mut s, *validated as u64);
                s.append("/");
                push_decimal(&mut s, *layers as u64);
                s
            },
            Notice::LockedOnto { matched, entered } => {
                let mut s = "Locked onto actual layer count ".to_string();
                push_decimal(&mut s, *matched as u64);
                s.append(" (you entered ");
                push_decimal(&mut s, *entered as u64);
                s.append(").");
                s
            },
            Notice::Candidate { score, group, count, field, table, validated } => {
                let mut s = "candidate score=".to_string();
                push_signed(&mut s, *score);
                s.append(" group=0x");
                push_hex(&mut s, *group);
                s.append(" count=0x");
                push_hex(&mut s, *count);
                s.append(" tableField=0x");
                push_hex(&mut s, *field);
                s.append(" table=0x");
                push_hex(&mut s, *table);
                s.append(" validated=");
                push_decimal(&mut s, *validated as u64);
                s
            },
            Notice::TableSample { sample } => {
                let mut s = "  table[".to_string();
                push_decimal(&mut s, sample.index as u64);
                s.append("] ptr=0x");
                push_hex(&mut s, sample.pointer);
                s.append(" score=");
                push_decimal(&mut s, sample.look.score() as u64);
                s.append(" ");
                push_look(&mut s, &sample.look, first, second);
                s
            },
            Notice::SavedSession { session } => {
                let mut s = "Saved FH6 session: layer_count=".to_string();
                push_decimal(&mut s, session.layer_count as u64);
                s.append(" group=0x");
                push_hex(&mut s, session.group_address);
                s.append(" count=0x");
                push_hex(&mut s, session.count_address);
                s.append(" table=0x");
                push_hex(&mut s, session.table_address);
                s.append(" score=");
                push_signed(&mut s, session.score);
                s
            },
        }
    }
}

} // verus!
