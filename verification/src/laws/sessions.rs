//! What is kept of a search, which process is meant, and what an inspection shows.

use vstd::prelude::*;
use vstd::string::*;

use crate::backend::{saved_location, Located};
use crate::device::World;
use crate::json::{is_whole, json_document, JsonTree};
use crate::laws::imports::behind;
use crate::locator::Session;
use crate::probe::{inspected, session_document, session_in};
use crate::procs::{games_among, known_key, resolved, GameProcView};
use crate::profiles::GameProfile;
use crate::text::lowercase;

verus! {

/// Whether the members of a document say what the parts of a session are.
pub open spec fn says(m: Map<Seq<char>, JsonTree>, s: Session) -> bool {
    &&& m.dom().contains("pid"@) && is_whole(m["pid"@], s.pid as int)
    &&& m.dom().contains("layer_count"@) && is_whole(m["layer_count"@], s.layer_count as int)
    &&& m.dom().contains("group_address"@) && is_whole(
        m["group_address"@],
        s.group_address as int,
    )
    &&& m.dom().contains("count_address"@) && is_whole(
        m["count_address"@],
        s.count_address as int,
    )
    &&& m.dom().contains("table_pointer_field"@) && is_whole(
        m["table_pointer_field"@],
        s.table_pointer_field as int,
    )
    &&& m.dom().contains("table_address"@) && is_whole(
        m["table_address"@],
        s.table_address as int,
    )
    &&& m.dom().contains("score"@) && is_whole(m["score"@], s.score as int)
}

/// A document says a session by its members: each part of the session is the member of
/// that name. What is written of a session is such a document. Without the process, the
/// number of layers, or one of the two addresses there is no session; without another
/// member that part is zero. Of the process and of the number of layers the lowest four
/// bytes count.
pub proof fn law_session_is_said_by_members(
    t: JsonTree,
    m: Map<Seq<char>, JsonTree>,
    s: Session,
    process: Seq<char>,
)
    requires
        t == JsonTree::Object(m),
    ensures
        says(m, s) ==> session_in(t) == Some(s),
        session_document(t, s, process) ==> says(m, s) && m["process"@] == JsonTree::Text(process)
            && m["type"@] == JsonTree::Text("fh6_session_location_v1"@) && m["locator"@]
            == JsonTree::Text("u16_group_layout"@),
        !m.dom().contains("pid"@) || !m.dom().contains("layer_count"@) || !m.dom().contains(
            "count_address"@,
        ) || !m.dom().contains("table_address"@) ==> session_in(t) is None,
        session_in(t) matches Some(r) ==> {
            &&& !m.dom().contains("group_address"@) ==> r.group_address == 0
            &&& !m.dom().contains("table_pointer_field"@) ==> r.table_pointer_field == 0
            &&& !m.dom().contains("score"@) ==> r.score == 0
            &&& forall|n: u64|
                #[trigger] is_whole(m["pid"@], n as int) ==> r.pid == n % 0x1_0000_0000
            &&& forall|n: u64|
                #[trigger] is_whole(m["layer_count"@], n as int) ==> r.layer_count == n
                    % 0x1_0000_0000
        },
{
}

/// The location that was kept is used just where its process is among the games that
/// run, and it is that of the session.
pub proof fn law_kept_location_is_of_a_running_game(
    text: Seq<char>,
    m: Map<Seq<char>, JsonTree>,
    s: Session,
    found: Seq<GameProcView>,
)
    requires
        json_document(text) == Some(JsonTree::Object(m)),
        says(m, s),
    ensures
        saved_location(None, found) is None,
        (exists|i: int| 0 <= i < found.len() && (#[trigger] found[i]).pid == s.pid)
            ==> saved_location(Some(text), found) == Some(
            Located {
                pid: s.pid,
                count_address: s.count_address,
                table_address: s.table_address,
                layer_count: s.layer_count,
            },
        ),
        (forall|i: int| 0 <= i < found.len() ==> (#[trigger] found[i]).pid != s.pid)
            ==> saved_location(Some(text), found) is None,
{
    law_session_is_said_by_members(JsonTree::Object(m), m, s, Seq::empty());
}

/// An inspection shows the first entries of a table in their order, no more than are
/// wanted and no more than there are layers. Each entry stands eight bytes behind the
/// one before it, and of an entry that is a pointer the 128 bytes where it points are
/// shown.
pub proof fn law_inspection_shows_the_entries(
    w: World,
    p: GameProfile,
    table: u64,
    layer_count: u32,
    most: u32,
    i: int,
)
    ensures
        inspected(w, p, table, layer_count, most).len() <= layer_count,
        inspected(w, p, table, layer_count, most).len() <= most,
        inspected(w, p, table, layer_count, most).len() == layer_count || inspected(
            w,
            p,
            table,
            layer_count,
            most,
        ).len() == most,
        0 <= i < inspected(w, p, table, layer_count, most).len() ==> {
            let e = inspected(w, p, table, layer_count, most)[i];
            &&& e.index == i
            &&& e.address == behind(table as int, 8 * i)
            &&& e.pointer == w.u64_at(e.address)
            &&& e.layer is Some <==> 0x10000 <= e.pointer <= 0x7FFF_FFFF_FFFF
            &&& e.layer matches Some((look, raw)) ==> raw == (w.read)(e.pointer, 128)
        },
{
}

/// A process is a game by its name, whatever the case of its letters: Forza Horizon 6
/// under two names, Forza Horizon 5 under one. Two names that differ in case only are
/// those of one game.
pub proof fn law_games_are_known_by_name(name: Seq<char>, other: Seq<char>)
    ensures
        lowercase(name) == lowercase(other) ==> known_key(name) == known_key(other),
        known_key("ForzaHorizon6.exe"@) == Some("fh6"@),
        known_key("ForzaHorizon6-Win64-Shipping.exe"@) == Some("fh6"@),
        known_key(name) matches Some(key) ==> (key == "fh6"@ && (lowercase(name) == lowercase(
            "ForzaHorizon6.exe"@,
        ) || lowercase(name) == lowercase("ForzaHorizon6-Win64-Shipping.exe"@))) || (key == "fh5"@
            && lowercase(name) == lowercase("ForzaHorizon5.exe"@)),
        lowercase(name) == lowercase("ForzaHorizon5.exe"@) ==> known_key(name) is Some,
{
}

/// The games among processes are found one by one, in the order of the processes: each
/// process that is a game is listed with its pid, its name and its key, and no other.
pub proof fn law_games_are_found_in_order(
    before: Seq<(u32, String)>,
    running: (u32, String),
    after: Seq<(u32, String)>,
)
    ensures
        games_among(before.push(running) + after) == games_among(before) + (match known_key(
            running.1@,
        ) {
            Some(key) => seq![
                GameProcView { pid: running.0, name: running.1@, profile_key: key },
            ],
            None => Seq::empty(),
        }) + games_among(after),
    decreases after.len(),
{
    let all = before.push(running) + after;
    let own = match known_key(running.1@) {
        Some(key) => seq![GameProcView { pid: running.0, name: running.1@, profile_key: key }],
        None => Seq::empty(),
    };
    if after.len() == 0 {
        assert(all =~= before.push(running));
        assert(all.drop_last() =~= before);
        assert(games_among(after) =~= Seq::<GameProcView>::empty());
        assert(games_among(all) =~= games_among(before) + own + games_among(after));
    } else {
        assert(all.drop_last() =~= before.push(running) + after.drop_last());
        assert(all.last() == after.last());
        law_games_are_found_in_order(before, running, after.drop_last());
        assert(games_among(all) =~= games_among(before) + own + games_among(after));
    }
}

/// Which process is meant. One that is forced is, as the game that runs under it; where no
/// game does, as the one that is wanted. Where neither a process nor a game is wanted it
/// is the first game that runs.
pub proof fn law_forced_process_keeps_its_game(
    found: Seq<GameProcView>,
    prefer_key: Option<Seq<char>>,
    pid: u32,
    k: int,
)
    requires
        0 <= k <= found.len(),
        k < found.len() ==> found[k].pid == pid,
        forall|j: int| 0 <= j < k ==> (#[trigger] found[j]).pid != pid,
    ensures
        k < found.len() ==> resolved(found, prefer_key, Some(pid)) == Some(
            (pid, found[k].profile_key),
        ),
        k == found.len() ==> resolved(found, prefer_key, Some(pid)) == (match prefer_key {
            Some(key) => Some((pid, key)),
            None => None,
        }),
        found.len() > 0 ==> resolved(found, None, None) == Some(
            (found[0].pid, found[0].profile_key),
        ),
        found.len() == 0 ==> resolved(found, prefer_key, None) is None,
{
    crate::procs::lemma_first_with_pid(found, pid, k);
}

} // verus!
