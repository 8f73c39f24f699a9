//! What the window holds and decides, without the window.

use vstd::prelude::*;
use vstd::string::*;

use crate::backend::Located;
use crate::cli::{command_of, flag_from, CommandView};
use crate::generate::{texts, usable, Profile, ProfileView};
use crate::procs::GameProc;
use crate::text::{
    ascii_lowered, chars_of, decimal, decimal_string, hexadecimal, lemma_decimal_text,
    parse_unsigned, push_decimal, push_hex, same_chars, same_text, slice_chars, string_of, trim,
    trimmed, unsigned_value,
};

verus! {

/// Which settings file is chosen at the start: the third, or the last of fewer.
pub fn first_preset(count: usize) -> (r: usize)
    ensures
        r == (if count == 0 {
            0
        } else if count < 3 {
            count - 1
        } else {
            2int
        }),
{
    if count == 0 {
        0
    } else if count < 3 {
        count - 1
    } else {
        2
    }
}

/// The settings of the generator as they are being edited.
#[derive(Debug)]
pub struct Editor {
    pub resolution: String,
    pub shapes: String,
    pub random: String,
    pub mutated: String,
    pub posterize: String,
    pub save_every: String,
    pub opacity: String,
    pub transparent: bool,
}

/// The settings that are being edited, as characters.
pub struct EditorView {
    pub resolution: Seq<char>,
    pub shapes: Seq<char>,
    pub random: Seq<char>,
    pub mutated: Seq<char>,
    pub posterize: Seq<char>,
    pub save_every: Seq<char>,
    pub opacity: Seq<char>,
    pub transparent: bool,
}

impl View for Editor {
    type V = EditorView;

    open spec fn view(&self) -> EditorView {
        EditorView {
            resolution: self.resolution@,
            shapes: self.shapes@,
            random: self.random@,
            mutated: self.mutated@,
            posterize: self.posterize@,
            save_every: self.save_every@,
            opacity: self.opacity@,
            transparent: self.transparent,
        }
    }
}

/// The settings after those of a settings file were taken over. The opacity stays
/// where one was entered, and the background stays in any case.
pub open spec fn seeded(e: EditorView, p: ProfileView) -> EditorView {
    EditorView {
        resolution: decimal(p.max_resolution as nat),
        shapes: decimal(p.stop_at as nat),
        random: decimal(p.random_samples as nat),
        mutated: decimal(p.mutated_samples as nat),
        posterize: decimal(p.posterize_levels as nat),
        save_every: decimal(p.save_every as nat),
        opacity: if trimmed(e.opacity).len() == 0 {
            "255"@
        } else {
            e.opacity
        },
        transparent: e.transparent,
    }
}

/// The arguments that hand the settings to the generator.
pub open spec fn generator_args(e: EditorView) -> Seq<Seq<char>> {
    seq![
        "--max-resolution"@,
        trimmed(e.resolution),
        "--stop-at"@,
        trimmed(e.shapes),
        "--random-samples"@,
        trimmed(e.random),
        "--mutated-samples"@,
        trimmed(e.mutated),
        "--posterize-levels"@,
        trimmed(e.posterize),
        "--save-every"@,
        trimmed(e.save_every),
        "--opacity"@,
        trimmed(e.opacity),
        "--background"@,
        if e.transparent {
            "transparent"@
        } else {
            "white"@
        },
    ]
}

/// A text without the white space at both ends.
fn trimmed_text(s: &String) -> (r: String)
    ensures
        r@ == trimmed(s@),
{
    string_of(&trim(&chars_of(s.as_str())))
}

impl Editor {
    /// Empty settings.
    pub fn new() -> (r: Editor)
        ensures
            r@ == (EditorView {
                resolution: Seq::empty(),
                shapes: Seq::empty(),
                random: Seq::empty(),
                mutated: Seq::empty(),
                posterize: Seq::empty(),
                save_every: Seq::empty(),
                opacity: Seq::empty(),
                transparent: false,
            }),
    {
        Editor {
            resolution: String::new(),
            shapes: String::new(),
            random: String::new(),
            mutated: String::new(),
            posterize: String::new(),
            save_every: String::new(),
            opacity: String::new(),
            transparent: false,
        }
    }

    /// Takes over the settings of a settings file.
    pub fn load_preset(&mut self, p: &Profile)
        ensures
            final(self)@ == seeded(old(self)@, p@),
    {
        self.resolution = decimal_string(p.max_resolution as u64);
        self.shapes = decimal_string(p.stop_at as u64);
        self.random = decimal_string(p.random_samples as u64);
        self.mutated = decimal_string(p.mutated_samples as u64);
        self.posterize = decimal_string(p.posterize_levels as u64);
        self.save_every = decimal_string(p.save_every as u64);
        if trim(&chars_of(self.opacity.as_str())).len() == 0 {
            self.opacity = "255".to_string();
        }
    }

    /// The arguments that hand the settings to the generator.
    pub fn generator_arguments(&self) -> (r: Vec<String>)
        ensures
            texts(r@) == generator_args(self@),
    {
        let background = if self.transparent {
            "transparent"
        } else {
            "white"
        };
        let mut out: Vec<String> = Vec::new();
        out.push("--max-resolution".to_string());
        out.push(trimmed_text(&self.resolution));
        out.push("--stop-at".to_string());
        out.push(trimmed_text(&self.shapes));
        out.push("--random-samples".to_string());
        out.push(trimmed_text(&self.random));
        out.push("--mutated-samples".to_string());
        out.push(trimmed_text(&self.mutated));
        out.push("--posterize-levels".to_string());
        out.push(trimmed_text(&self.posterize));
        out.push("--save-every".to_string());
        out.push(trimmed_text(&self.save_every));
        out.push("--opacity".to_string());
        out.push(trimmed_text(&self.opacity));
        out.push("--background".to_string());
        out.push(background.to_string());
        assert(texts(out@) =~= generator_args(self@));
        out
    }
}

/// How many lines the log holds at most.
pub const MOST_LINES: usize = 4000;

/// How many lines go when there are more.
pub const DROPPED_LINES: usize = 1000;

/// The log with one more line. The oldest thousand lines go when there are more than
/// four thousand.
pub open spec fn logged(log: Seq<Seq<char>>, line: Seq<char>) -> Seq<Seq<char>> {
    let more = log.push(line);
    if more.len() > MOST_LINES {
        more.skip(DROPPED_LINES as int)
    } else {
        more
    }
}

/// What a task tells the window.
#[derive(Debug)]
pub enum Message {
    /// A line for the log.
    Log(String),
    /// What the task is at.
    Status(String),
    /// The task has ended.
    Finished,
}

/// What the window shows of the task at hand.
#[derive(Debug)]
pub struct Desk {
    pub log: Vec<String>,
    pub status: String,
    pub busy: bool,
}

/// What the window shows, as characters.
pub struct DeskView {
    pub log: Seq<Seq<char>>,
    pub status: Seq<char>,
    pub busy: bool,
}

impl View for Desk {
    type V = DeskView;

    open spec fn view(&self) -> DeskView {
        DeskView { log: texts(self.log@), status: self.status@, busy: self.busy }
    }
}

/// What is shown once a message has come.
pub open spec fn after_message(d: DeskView, m: Message) -> DeskView {
    match m {
        Message::Log(s) => DeskView { log: logged(d.log, s@), ..d },
        Message::Status(s) => DeskView { status: s@, ..d },
        Message::Finished => DeskView { busy: false, ..d },
    }
}

impl Desk {
    /// Nothing to show yet.
    pub fn new() -> (r: Desk)
        ensures
            r@ == (DeskView { log: Seq::empty(), status: "Ready"@, busy: false }),
    {
        let r = Desk { log: Vec::new(), status: "Ready".to_string(), busy: false };
        assert(texts(r.log@) =~= Seq::<Seq<char>>::empty());
        r
    }

    /// Adds a line to the log.
    pub fn log_line(&mut self, line: String)
        ensures
            final(self)@ == (DeskView { log: logged(old(self)@.log, line@), ..old(self)@ }),
    {
        let ghost before = texts(self.log@);
        let ghost text = line@;
        self.log.push(line);
        assert(texts(self.log@) =~= before.push(text));
        if self.log.len() > MOST_LINES {
            let ghost all = self.log@;
            let kept = self.log.split_off(DROPPED_LINES);
            self.log = kept;
            assert(texts(self.log@) =~= texts(all).skip(DROPPED_LINES as int));
        }
    }

    /// Takes a message.
    pub fn apply(&mut self, m: Message)
        ensures
            final(self)@ == after_message(old(self)@, m),
    {
        match m {
            Message::Log(s) => {
                self.log_line(s);
            },
            Message::Status(s) => {
                self.status = s;
            },
            Message::Finished => {
                self.busy = false;
            },
        }
    }

    /// Starts a task, where none is running.
    pub fn start_task(&mut self) -> (r: bool)
        ensures
            r == !old(self)@.busy,
            final(self)@ == (if old(self)@.busy {
                DeskView {
                    log: logged(old(self)@.log, "Busy: another task is running."@),
                    ..old(self)@
                }
            } else {
                DeskView { busy: true, status: "Running"@, ..old(self)@ }
            }),
    {
        if self.busy {
            self.log_line("Busy: another task is running.".to_string());
            false
        } else {
            self.busy = true;
            self.status = "Running".to_string();
            true
        }
    }

    /// What is shown of the task: its state, where one is running, else whether the
    /// last one is done.
    pub fn pill_text(&self) -> (r: String)
        ensures
            r@ == (if self.busy {
                self.status@
            } else if self.status@ == "Done"@ {
                "Done"@
            } else {
                "Ready"@
            }),
    {
        if self.busy {
            self.status.clone()
        } else if same_text(self.status.as_str(), "Done") {
            "Done".to_string()
        } else {
            "Ready".to_string()
        }
    }
}

/// The log never holds more than four thousand lines, and its last line is the last
/// that was added.
pub proof fn law_log_is_bounded(log: Seq<Seq<char>>, line: Seq<char>)
    requires
        log.len() <= MOST_LINES,
    ensures
        logged(log, line).len() <= MOST_LINES,
        logged(log, line).len() > 0,
        logged(log, line).last() == line,
{
}

/// The process that is chosen.
pub fn selected_pid(processes: &Vec<GameProc>, index: usize) -> (r: Option<u32>)
    ensures
        r == (if index < processes@.len() {
            Some(processes@[index as int].pid)
        } else {
            None
        }),
{
    if index < processes.len() {
        Some(processes[index].pid)
    } else {
        None
    }
}

/// The game that is chosen: Forza Horizon 6 where none is.
pub fn selected_game(processes: &Vec<GameProc>, index: usize) -> (r: String)
    ensures
        r@ == (if index < processes@.len() {
            processes@[index as int].profile_key@
        } else {
            "fh6"@
        }),
{
    if index < processes.len() {
        processes[index].profile_key.clone()
    } else {
        "fh6".to_string()
    }
}

/// The number of layers that was entered.
pub open spec fn entered_count(s: Seq<char>) -> Option<nat> {
    unsigned_value(trimmed(s), 10, u32::MAX as nat)
}

/// Reads the number of layers that was entered.
pub fn parse_layer_count(s: &str) -> (r: Option<u32>)
    ensures
        match r {
            Some(n) => entered_count(s@) == Some(n as nat),
            None => entered_count(s@) is None,
        },
{
    match parse_unsigned(&trim(&chars_of(s)), 10, u32::MAX as u64) {
        Some(n) => Some(n as u32),
        None => None,
    }
}

/// How the layers of the template are found before an import.
#[derive(Clone, Copy, Debug, PartialEq, Eq, Structural)]
pub enum Approach {
    /// They are where they were the last time.
    Saved(Located),
    /// They are searched for.
    Locate(u32),
    /// The import finds them itself.
    Direct,
}

/// Whether a location that was kept is of the process that is meant.
pub open spec fn same_process(pid: Option<u32>, s: Located) -> bool {
    match pid {
        Some(p) => p == s.pid,
        None => true,
    }
}

/// Whether a location that was kept is of a template with about as many layers as
/// was entered: at most three more or fewer.
pub open spec fn near(layer_count: Option<u32>, s: Located) -> bool {
    match layer_count {
        Some(n) => -3 <= n - s.layer_count <= 3,
        None => false,
    }
}

/// How the layers are found: where the game is Forza Horizon 6, where they were the
/// last time, if that fits; else by a search, if a number of layers was entered.
pub open spec fn approach(
    fh6: bool,
    pid: Option<u32>,
    layer_count: Option<u32>,
    saved: Option<Located>,
) -> Approach {
    if !fh6 {
        Approach::Direct
    } else {
        match (saved, layer_count) {
            (Some(s), _) if same_process(pid, s) && near(layer_count, s) => Approach::Saved(s),
            (_, Some(n)) => Approach::Locate(n),
            _ => Approach::Direct,
        }
    }
}

/// Whether it is said that the location that was kept does not fit.
pub open spec fn far_off(
    fh6: bool,
    pid: Option<u32>,
    layer_count: Option<u32>,
    saved: Option<Located>,
) -> bool {
    fh6 && (saved matches Some(s) && same_process(pid, s) && !near(layer_count, s))
}

/// Decides how the layers are found, and whether it is said that the location that
/// was kept does not fit.
pub fn choose_approach(
    game: &str,
    pid: Option<u32>,
    layer_count: Option<u32>,
    saved: Option<Located>,
) -> (r: (Approach, bool))
    ensures
        r.0 == approach(game@ == "fh6"@, pid, layer_count, saved),
        r.1 == far_off(game@ == "fh6"@, pid, layer_count, saved),
{
    if !same_text(game, "fh6") {
        return (Approach::Direct, false);
    }
    let mut far = false;
    if let Some(s) = saved {
        let pid_ok = match pid {
            Some(p) => p == s.pid,
            None => true,
        };
        let close = match layer_count {
            Some(n) => {
                let d: i64 = n as i64 - s.layer_count as i64;
                -3 <= d && d <= 3
            },
            None => false,
        };
        if pid_ok && close {
            return (Approach::Saved(s), false);
        }
        far = pid_ok;
    }
    match layer_count {
        Some(n) => (Approach::Locate(n), far),
        None => (Approach::Direct, far),
    }
}

/// What an import is told of the template: where the number of layers and the table
/// are, and how many layers there are.
#[derive(Clone, Copy, Debug, PartialEq, Eq, Structural)]
pub struct TemplateInfo {
    pub count_address: Option<u64>,
    pub table_address: Option<u64>,
    pub layer_count: Option<u32>,
}

/// What an import is told, by the location of the layers where it is known. The
/// number of layers is then the one that was found.
pub fn template_info(located: Option<Located>, layer_count: Option<u32>) -> (r: TemplateInfo)
    ensures
        r == (match located {
            Some(s) => TemplateInfo {
                count_address: Some(s.count_address),
                table_address: Some(s.table_address),
                layer_count: Some(s.layer_count),
            },
            None => TemplateInfo { count_address: None, table_address: None, layer_count },
        }),
{
    match located {
        Some(s) => TemplateInfo {
            count_address: Some(s.count_address),
            table_address: Some(s.table_address),
            layer_count: Some(s.layer_count),
        },
        None => TemplateInfo { count_address: None, table_address: None, layer_count },
    }
}

/// What is said when the location that was kept is used.
pub fn saved_text(s: &Located) -> (r: String)
    ensures
        r@ == "Using saved FH6 session: count=0x"@ + hexadecimal(s.count_address as nat)
            + " table=0x"@ + hexadecimal(s.table_address as nat) + " layers="@ + decimal(
            s.layer_count as nat,
        ),
{
    let mut t = "Using saved FH6 session: count=0x".to_string();
    push_hex(&mut t, s.count_address);
    t.append(" table=0x");
    push_hex(&mut t, s.table_address);
    t.append(" layers=");
    push_decimal(&mut t, s.layer_count as u64);
    t
}

/// A location that was kept is used only for the process that is meant, and only
/// where the number of layers was entered and is at most three off.
pub proof fn law_saved_location_fits(
    fh6: bool,
    pid: Option<u32>,
    layer_count: Option<u32>,
    saved: Option<Located>,
)
    ensures
        approach(fh6, pid, layer_count, saved) matches Approach::Saved(s) ==> {
            &&& fh6
            &&& saved == Some(s)
            &&& pid matches Some(p) ==> p == s.pid
            &&& layer_count matches Some(n) && -3 <= n - s.layer_count <= 3
        },
{
}

/// Which file is imported next, when the imports before it ended as `results` says:
/// they are imported in order, up to the first that fails.
pub fn next_import(results: &Vec<bool>, total: usize) -> (r: Option<usize>)
    ensures
        r == (if results@.contains(false) || results@.len() >= total {
            None
        } else {
            Some(results@.len() as usize)
        }),
{
    for i in 0..results.len()
        invariant
            forall|j: int| 0 <= j < i ==> results@[j],
    {
        if !results[i] {
            assert(results@[i as int] == false);
            return None;
        }
    }
    if results.len() >= total {
        None
    } else {
        Some(results.len())
    }
}

/// Whether a file is a geometry, by its name.
pub open spec fn json_name(name: Seq<char>) -> bool {
    name.len() > 5 && name.subrange(name.len() - 5, name.len() as int) == ".json"@
}

/// Whether a file beside an image is a geometry of it: its name starts as that of the
/// image does.
pub open spec fn json_of_image(name: Seq<char>, stem: Seq<char>) -> bool {
    json_name(name) && name.len() >= stem.len() && name.subrange(0, stem.len() as int) == stem
}

/// Decides `json_name`.
pub fn is_json_name(name: &str) -> (r: bool)
    ensures
        r == json_name(name@),
{
    proof {
        reveal_strlit(".json");
    }
    let v = chars_of(name);
    if v.len() <= 5 {
        return false;
    }
    same_chars(&slice_chars(&v, v.len() - 5, v.len()), &chars_of(".json"))
}

/// Decides `json_of_image`.
pub fn is_json_of_image(name: &str, stem: &str) -> (r: bool)
    ensures
        r == json_of_image(name@, stem@),
{
    let v = chars_of(name);
    let s = chars_of(stem);
    if !is_json_name(name) || v.len() < s.len() {
        return false;
    }
    same_chars(&slice_chars(&v, 0, s.len()), &s)
}

/// A file by its path, with the time of its last change in seconds.
#[derive(Debug)]
pub struct DatedFile {
    pub path: String,
    pub seconds: u64,
}

/// The files `order`, the newest first, with file `k` in its place: behind those that
/// are as new.
pub open spec fn newest_with(files: Seq<DatedFile>, order: Seq<int>, k: int) -> Seq<int>
    decreases order.len(),
{
    if order.len() == 0 || files[order.last()].seconds >= files[k].seconds {
        order.push(k)
    } else {
        newest_with(files, order.drop_last(), k).push(order.last())
    }
}

/// The first `n` files, the newest first, and of equally new ones the earlier first.
pub open spec fn newest_order(files: Seq<DatedFile>, n: int) -> Seq<int>
    decreases n,
{
    if n <= 0 {
        Seq::empty()
    } else {
        newest_with(files, newest_order(files, n - 1), n - 1)
    }
}

/// The files of `order` without those that are the one before them.
pub open spec fn without_repeats(files: Seq<DatedFile>, order: Seq<int>) -> Seq<int>
    decreases order.len(),
{
    if order.len() == 0 {
        Seq::empty()
    } else {
        let before = without_repeats(files, order.drop_last());
        if before.len() > 0 && files[before.last()].path@ == files[order.last()].path@ {
            before
        } else {
            before.push(order.last())
        }
    }
}

/// Places in a list as numbers.
pub open spec fn places(v: Seq<usize>) -> Seq<int> {
    v.map_values(|k: usize| k as int)
}

proof fn lemma_newest_with(files: Seq<DatedFile>, order: Seq<int>, k: int, i: int)
    requires
        0 <= i <= order.len(),
        i > 0 ==> files[order[i - 1]].seconds >= files[k].seconds,
        forall|j: int| i <= j < order.len() ==> files[#[trigger] order[j]].seconds < files[k].seconds,
    ensures
        newest_with(files, order, k) == order.insert(i, k),
    decreases order.len(),
{
    if i == order.len() {
        assert(order.insert(i, k) =~= order.push(k));
    } else {
        assert(files[order[order.len() - 1]].seconds < files[k].seconds);
        assert forall|j: int| i <= j < order.drop_last().len() implies files[
            #[trigger] order.drop_last()[j]
        ].seconds < files[k].seconds by {
            assert(order.drop_last()[j] == order[j]);
        }
        lemma_newest_with(files, order.drop_last(), k, i);
        assert(order.insert(i, k) =~= order.drop_last().insert(i, k).push(order.last()));
    }
}

/// Whether every number is a place in a list of `n`.
spec fn all_below(v: Seq<usize>, n: int) -> bool {
    forall|j: int| 0 <= j < v.len() ==> (#[trigger] v[j]) < n
}

/// Puts file `k` in its place.
fn insert_newest(files: &Vec<DatedFile>, order: &mut Vec<usize>, k: usize)
    requires
        k < files@.len(),
        all_below(old(order)@, files@.len() as int),
    ensures
        all_below(final(order)@, files@.len() as int),
        places(final(order)@) == newest_with(files@, places(old(order)@), k as int),
{
    let ghost all = places(order@);
    let mut i: usize = order.len();
    while i > 0 && files[order[i - 1]].seconds < files[k].seconds
        invariant
            i <= order@.len(),
            k < files@.len(),
            all == places(order@),
            all_below(order@, files@.len() as int),
            forall|j: int|
                i <= j < all.len() ==> files@[#[trigger] all[j]].seconds < files@[k as int].seconds,
        decreases i,
    {
        i = i - 1;
        assert(all[i as int] == order@[i as int]);
    }
    proof {
        if i > 0 {
            assert(all[i - 1] == order@[i - 1]);
        }
        lemma_newest_with(files@, all, k as int, i as int);
    }
    order.insert(i, k);
    assert(places(order@) =~= all.insert(i as int, k as int));
}

/// The places of the files, the newest first, each path once in a row.
pub fn newest_first(files: &Vec<DatedFile>) -> (r: Vec<usize>)
    ensures
        places(r@) == without_repeats(files@, newest_order(files@, files@.len() as int)),
        forall|j: int| 0 <= j < r@.len() ==> (#[trigger] r@[j]) < files@.len(),
{
    let mut order: Vec<usize> = Vec::new();
    assert(places(order@) =~= Seq::<int>::empty());
    for k in 0..files.len()
        invariant
            all_below(order@, files@.len() as int),
            places(order@) == newest_order(files@, k as int),
    {
        insert_newest(files, &mut order, k);
    }
    let ghost all = places(order@);
    let mut out: Vec<usize> = Vec::new();
    assert(places(out@) =~= Seq::<int>::empty());
    assert(all.take(0) =~= Seq::<int>::empty());
    for i in 0..order.len()
        invariant
            all == places(order@),
            all_below(order@, files@.len() as int),
            all_below(out@, files@.len() as int),
            places(out@) == without_repeats(files@, all.take(i as int)),
    {
        let k = order[i];
        let ghost before = out@;
        assert(all.take(i + 1).drop_last() =~= all.take(i as int));
        assert(all.take(i + 1).last() == k);
        let repeated = if out.len() > 0 {
            let last = out[out.len() - 1];
            assert(places(out@).last() == last);
            same_text(files[last].path.as_str(), files[k].path.as_str())
        } else {
            false
        };
        if !repeated {
            out.push(k);
            assert(places(out@) =~= places(before).push(k as int));
        }
    }
    assert(all.take(order@.len() as int) =~= all);
    out
}

/// Whether no file of `order` is newer than one in front of it.
pub open spec fn newest_lead(files: Seq<DatedFile>, order: Seq<int>) -> bool {
    forall|i: int, j: int|
        0 <= i < j < order.len() ==> files[#[trigger] order[i]].seconds
            >= files[#[trigger] order[j]].seconds
}

/// Whether the path of file `k` is among those of `order`.
pub open spec fn path_listed(files: Seq<DatedFile>, order: Seq<int>, k: int) -> bool {
    exists|j: int| 0 <= j < order.len() && files[#[trigger] order[j]].path@ == files[k].path@
}

/// A file that takes its place keeps the order, and nothing else comes or goes.
proof fn lemma_newest_insertion(files: Seq<DatedFile>, order: Seq<int>, k: int)
    requires
        newest_lead(files, order),
    ensures
        newest_lead(files, newest_with(files, order, k)),
        forall|x: int|
            #![trigger newest_with(files, order, k).contains(x)]
            newest_with(files, order, k).contains(x) <==> order.contains(x) || x == k,
    decreases order.len(),
{
    let r = newest_with(files, order, k);
    if order.len() == 0 || files[order.last()].seconds >= files[k].seconds {
        assert(r[r.len() - 1] == k);
        assert forall|x: int| #[trigger] r.contains(x) <==> order.contains(x) || x == k by {
            if r.contains(x) {
                let m = r.index_of(x);
                if m < order.len() {
                    assert(order[m] == x);
                }
            }
            if order.contains(x) {
                assert(r[order.index_of(x)] == x);
            }
        }
        assert forall|i: int, j: int| 0 <= i < j < r.len() implies files[#[trigger] r[i]].seconds
            >= files[#[trigger] r[j]].seconds by {
            if j == order.len() && i < order.len() - 1 {
                assert(files[order[i]].seconds >= files[order[order.len() - 1]].seconds);
            }
        }
    } else {
        let front = order.drop_last();
        lemma_newest_insertion(files, front, k);
        let before = newest_with(files, front, k);
        assert forall|x: int| #[trigger] r.contains(x) <==> order.contains(x) || x == k by {
            if r.contains(x) {
                let m = r.index_of(x);
                if m < before.len() {
                    assert(before[m] == x);
                    assert(before.contains(x));
                    if front.contains(x) {
                        assert(order[front.index_of(x)] == x);
                    }
                } else {
                    assert(order[order.len() - 1] == x);
                }
            }
            if order.contains(x) || x == k {
                if x == order.last() {
                    assert(r[r.len() - 1] == x);
                } else {
                    if order.contains(x) {
                        assert(front[order.index_of(x)] == x);
                    }
                    assert(before.contains(x));
                    assert(r[before.index_of(x)] == x);
                }
            }
        }
        assert forall|i: int, j: int| 0 <= i < j < r.len() implies files[#[trigger] r[i]].seconds
            >= files[#[trigger] r[j]].seconds by {
            if j == before.len() {
                assert(before.contains(before[i]));
                if front.contains(before[i]) {
                    let m = front.index_of(before[i]);
                    assert(order[m] == before[i]);
                    assert(files[order[m]].seconds >= files[order[order.len() - 1]].seconds);
                }
            }
        }
    }
}

/// The first files, ordered, are those files, the newest first.
proof fn lemma_newest_order(files: Seq<DatedFile>, n: int)
    requires
        0 <= n,
    ensures
        newest_lead(files, newest_order(files, n)),
        forall|x: int| #[trigger] newest_order(files, n).contains(x) <==> 0 <= x < n,
    decreases n,
{
    if n > 0 {
        lemma_newest_order(files, n - 1);
        lemma_newest_insertion(files, newest_order(files, n - 1), n - 1);
    }
}

/// A list without repeats keeps its order and its paths.
proof fn lemma_without_repeats(files: Seq<DatedFile>, order: Seq<int>)
    requires
        newest_lead(files, order),
    ensures
        newest_lead(files, without_repeats(files, order)),
        forall|x: int| #[trigger] without_repeats(files, order).contains(x) ==> order.contains(x),
        forall|i: int|
            0 <= i < order.len() ==> path_listed(
                files,
                without_repeats(files, order),
                #[trigger] order[i],
            ),
    decreases order.len(),
{
    if order.len() > 0 {
        let front = order.drop_last();
        let before = without_repeats(files, front);
        let r = without_repeats(files, order);
        lemma_without_repeats(files, front);
        assert forall|x: int| #[trigger] r.contains(x) implies order.contains(x) by {
            let m = r.index_of(x);
            if m < before.len() {
                assert(before[m] == x);
                assert(before.contains(x));
                assert(order[front.index_of(x)] == x);
            } else {
                assert(order[order.len() - 1] == x);
            }
        }
        assert forall|i: int, j: int| 0 <= i < j < r.len() implies files[#[trigger] r[i]].seconds
            >= files[#[trigger] r[j]].seconds by {
            if j == before.len() {
                assert(before.contains(before[i]));
                let m = front.index_of(before[i]);
                assert(order[m] == before[i]);
                assert(files[order[m]].seconds >= files[order[order.len() - 1]].seconds);
            }
        }
        assert forall|i: int| 0 <= i < order.len() implies path_listed(
            files,
            r,
            #[trigger] order[i],
        ) by {
            if i < front.len() {
                assert(path_listed(files, before, front[i]));
                let j = choose|j: int|
                    0 <= j < before.len() && files[#[trigger] before[j]].path@
                        == files[front[i]].path@;
                assert(r[j] == before[j]);
            } else {
                assert(files[r[r.len() - 1]].path@ == files[order[i]].path@);
            }
        }
    }
}

/// The listed files stand the newest first, and every path is listed.
pub proof fn law_newest_come_first(files: Seq<DatedFile>)
    ensures
        newest_lead(files, without_repeats(files, newest_order(files, files.len() as int))),
        forall|k: int|
            0 <= k < files.len() ==> path_listed(
                files,
                without_repeats(files, newest_order(files, files.len() as int)),
                k,
            ),
{
    let order = newest_order(files, files.len() as int);
    lemma_newest_order(files, files.len() as int);
    lemma_without_repeats(files, order);
    assert forall|k: int| 0 <= k < files.len() implies path_listed(
        files,
        without_repeats(files, order),
        k,
    ) by {
        assert(order.contains(k));
        assert(order[order.index_of(k)] == k);
    }
}

/// Whether `path` is among the paths.
fn is_listed(paths: &Vec<String>, path: &String) -> (r: bool)
    ensures
        r == texts(paths@).contains(path@),
{
    let ghost all = texts(paths@);
    for i in 0..paths.len()
        invariant
            all == texts(paths@),
            forall|j: int| 0 <= j < i ==> #[trigger] all[j] != path@,
    {
        assert(all[i as int] == paths@[i as int]@);
        if same_text(paths[i].as_str(), path.as_str()) {
            return true;
        }
    }
    false
}

/// The places of the paths that are new: those in `after` that are not in `before`, in
/// their order.
pub fn new_paths(before: &Vec<String>, after: &Vec<String>) -> (r: Vec<usize>)
    ensures
        forall|i: int, j: int| 0 <= i < j < r@.len() ==> (#[trigger] r@[i]) < (#[trigger] r@[j]),
        forall|k: usize| #[trigger]
            r@.contains(k) <==> k < after@.len() && !texts(before@).contains(after@[k as int]@),
{
    let mut out: Vec<usize> = Vec::new();
    for k in 0..after.len()
        invariant
            forall|i: int, j: int|
                0 <= i < j < out@.len() ==> (#[trigger] out@[i]) < (#[trigger] out@[j]),
            forall|i: int| 0 <= i < out@.len() ==> (#[trigger] out@[i]) < k,
            forall|m: usize| #[trigger]
                out@.contains(m) <==> m < k && !texts(before@).contains(after@[m as int]@),
    {
        let ghost sofar = out@;
        if !is_listed(before, &after[k]) {
            out.push(k);
        }
        assert forall|m: usize| #[trigger] out@.contains(m) <==> m < k + 1 && !texts(
            before@,
        ).contains(after@[m as int]@) by {
            if out@.contains(m) {
                let i = out@.index_of(m);
                if i < sofar.len() {
                    assert(sofar[i] == m);
                    assert(sofar.contains(m));
                }
            }
            if sofar.contains(m) {
                assert(out@[sofar.index_of(m)] == m);
            }
            if out@.len() > sofar.len() {
                assert(out@[sofar.len() as int] == k);
            }
        }
    }
    out
}

/// Whether a preview is due while the generator works: the newest of the paths is not
/// the one that was shown last.
pub fn preview_due(paths: &Vec<String>, last: &str) -> (r: bool)
    ensures
        r == (paths@.len() > 0 && paths@[0]@ != last@),
{
    paths.len() > 0 && !same_text(paths[0].as_str(), last)
}

/// The flags of the generator.
pub open spec fn generator_flags() -> Seq<Seq<char>> {
    seq![
        "--max-resolution"@,
        "--stop-at"@,
        "--random-samples"@,
        "--mutated-samples"@,
        "--posterize-levels"@,
        "--save-every"@,
        "--opacity"@,
        "--background"@,
        "--shapes"@,
    ]
}

/// The command line of a generator that the window starts.
pub open spec fn generator_command(program: Seq<char>, image: Seq<char>, e: EditorView) -> Seq<
    Seq<char>,
> {
    seq![program, "generate"@, image] + generator_args(e)
}

proof fn lemma_flag_at(args: Seq<Seq<char>>, name: Seq<char>, i: int, k: int)
    requires
        0 <= i <= k,
        k + 1 < args.len(),
        args[k] == name,
        forall|j: int| i <= j < k ==> #[trigger] args[j] != name,
    ensures
        flag_from(args, name, i) == Some(args[k + 1]),
    decreases k - i,
{
    if i < k {
        assert(args[i] != name);
        lemma_flag_at(args, name, i + 1, k);
    }
}

proof fn lemma_flag_absent(args: Seq<Seq<char>>, name: Seq<char>, i: int)
    requires
        0 <= i,
        forall|j: int| i <= j < args.len() ==> #[trigger] args[j] != name,
    ensures
        flag_from(args, name, i) is None,
    decreases args.len() - i,
{
    if i < args.len() {
        assert(args[i] != name);
        lemma_flag_absent(args, name, i + 1);
    }
}

/// The flags are all different, start with a dash, and no word of a command does.
proof fn lemma_flags()
    ensures
        forall|i: int, j: int|
            0 <= i < j < 9 ==> #[trigger] generator_flags()[i] != #[trigger] generator_flags()[j],
        forall|i: int|
            0 <= i < 9 ==> (#[trigger] generator_flags()[i]).len() > 0 && generator_flags()[i][0]
                == '-',
        "generate"@.len() > 0 && "generate"@[0] != '-',
        "transparent"@.len() > 0 && "transparent"@[0] != '-',
        "white"@.len() > 0 && "white"@[0] != '-',
        "255"@ == decimal(255),
        ascii_lowered("transparent"@) != ascii_lowered("white"@),
        trimmed("transparent"@) == "transparent"@,
        trimmed("white"@) == "white"@,
        "generate"@ != ""@,
{
    reveal_strlit("--max-resolution");
    reveal_strlit("--stop-at");
    reveal_strlit("--random-samples");
    reveal_strlit("--mutated-samples");
    reveal_strlit("--posterize-levels");
    reveal_strlit("--save-every");
    reveal_strlit("--opacity");
    reveal_strlit("--background");
    reveal_strlit("--shapes");
    reveal_strlit("generate");
    reveal_strlit("transparent");
    reveal_strlit("white");
    reveal_strlit("255");
    reveal_strlit("");
    let f = generator_flags();
    assert("generate"@.len() != ""@.len());
    assert(f[0].len() == 16);
    assert(f[1].len() == 9);
    assert(f[2].len() == 16);
    assert(f[3].len() == 17);
    assert(f[4].len() == 18);
    assert(f[5].len() == 12);
    assert(f[6].len() == 9);
    assert(f[7].len() == 12);
    assert(f[8].len() == 8);
    assert(f[0][2] != f[2][2]);
    assert(f[1][2] != f[6][2]);
    assert(f[5][2] != f[7][2]);
    assert forall|i: int, j: int| 0 <= i < j < 9 implies #[trigger] f[i] != #[trigger] f[j] by {
        assert(i == 0 || i == 1 || i == 2 || i == 3 || i == 4 || i == 5 || i == 6 || i == 7);
        assert(j == 1 || j == 2 || j == 3 || j == 4 || j == 5 || j == 6 || j == 7 || j == 8);
    }
    assert forall|i: int| 0 <= i < 9 implies (#[trigger] f[i]).len() > 0 && f[i][0] == '-' by {
        assert(i == 0 || i == 1 || i == 2 || i == 3 || i == 4 || i == 5 || i == 6 || i == 7 || i
            == 8);
    }
    reveal_with_fuel(decimal, 4);
    assert("255"@ =~= decimal(255));
    assert(ascii_lowered("transparent"@).len() != ascii_lowered("white"@).len());
}

/// What a preset hands to the editor, the editor hands to the generator: every number
/// of the settings file arrives unchanged, with the background that was chosen, and
/// with solid shapes where no opacity was entered. The program, the image and the
/// opacity must not read like a flag.
pub proof fn law_preset_reaches_generator(
    program: Seq<char>,
    image: Seq<char>,
    e: EditorView,
    p: ProfileView,
)
    requires
        usable(p),
        !generator_flags().contains(program),
        !generator_flags().contains(image),
        !generator_flags().contains(trimmed(e.opacity)),
    ensures
        command_of(generator_command(program, image, seeded(e, p))) matches CommandView::Generate {
            image: i,
            profile: Some(q),
        } && i == image && q.max_resolution == p.max_resolution && q.stop_at == p.stop_at
            && q.random_samples == p.random_samples && q.mutated_samples == p.mutated_samples
            && q.posterize_levels == p.posterize_levels && q.save_every == p.save_every
            && q.transparent_bg == e.transparent && q.shape_mode == 0 && (trimmed(e.opacity).len()
            == 0 ==> q.shape_alpha == 255),
{
    let s = seeded(e, p);
    let args = generator_command(program, image, s);
    let f = generator_flags();
    lemma_flags();
    lemma_decimal_text(p.max_resolution as nat);
    lemma_decimal_text(p.stop_at as nat);
    lemma_decimal_text(p.random_samples as nat);
    lemma_decimal_text(p.mutated_samples as nat);
    lemma_decimal_text(p.posterize_levels as nat);
    lemma_decimal_text(p.save_every as nat);
    lemma_decimal_text(255);
    assert(args.len() == 19);
    assert(args[0] == program);
    assert(args[1] == "generate"@);
    assert(args[2] == image);
    assert(args[3] == f[0] && args[4] == decimal(p.max_resolution as nat));
    assert(args[5] == f[1] && args[6] == decimal(p.stop_at as nat));
    assert(args[7] == f[2] && args[8] == decimal(p.random_samples as nat));
    assert(args[9] == f[3] && args[10] == decimal(p.mutated_samples as nat));
    assert(args[11] == f[4] && args[12] == decimal(p.posterize_levels as nat));
    assert(args[13] == f[5] && args[14] == decimal(p.save_every as nat));
    assert(args[15] == f[6] && args[16] == trimmed(s.opacity));
    assert(args[17] == f[7]);
    assert forall|k: int| 0 <= k < 9 implies program != #[trigger] f[k] && image != f[k]
        && trimmed(s.opacity) != f[k] by {
        assert(f.contains(f[k]));
    }
    assert forall|m: int, j: int|
        0 <= m < 9 && 0 <= j < 19 && j != 3 + 2 * m implies #[trigger] args[j]
        != #[trigger] f[m] by {
        assert(j == 0 || j == 1 || j == 2 || j == 3 || j == 4 || j == 5 || j == 6 || j == 7 || j
            == 8 || j == 9 || j == 10 || j == 11 || j == 12 || j == 13 || j == 14 || j == 15 || j
            == 16 || j == 17 || j == 18);
        assert(f[m][0] == '-');
    }
    lemma_flag_at(args, f[0], 0, 3);
    lemma_flag_at(args, f[1], 0, 5);
    lemma_flag_at(args, f[2], 0, 7);
    lemma_flag_at(args, f[3], 0, 9);
    lemma_flag_at(args, f[4], 0, 11);
    lemma_flag_at(args, f[5], 0, 13);
    lemma_flag_at(args, f[6], 0, 15);
    lemma_flag_at(args, f[7], 0, 17);
    lemma_flag_absent(args, f[8], 0);
}

} // verus!
