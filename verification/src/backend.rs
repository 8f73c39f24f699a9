//! What the program asks of a game: each run by its arguments.

use vstd::prelude::*;
use vstd::string::*;

use crate::device::World;
use crate::diagnosis::{diagnosis, Diagnosis};
use crate::importer::{
    diagnose, load_geometry, named, read_document, start_refusal, started,
    Import, ImportArgs, StartError,
};
use crate::json::json_document;
use crate::locator::{located, Locator, Session};
use crate::probe::{
    auto_locate, inspect_table, inspected, load_session, session_in, session_pid_is_live,
    Inspection,
};
use crate::procs::{games, optional_text, resolved, GameProc, GameProcView};
use crate::profiles::profile_of;

verus! {

/// Where the layers of a template are.
#[derive(Clone, Copy, Debug, PartialEq, Eq, Structural)]
pub struct Located {
    pub pid: u32,
    pub count_address: u64,
    pub table_address: u64,
    pub layer_count: u32,
}

/// What of a session counts for an import.
pub open spec fn location_of(s: Session) -> Located {
    Located {
        pid: s.pid,
        count_address: s.count_address,
        table_address: s.table_address,
        layer_count: s.layer_count,
    }
}

/// What of a session counts for an import.
pub fn locate(s: &Session) -> (r: Located)
    ensures
        r == location_of(*s),
{
    Located {
        pid: s.pid,
        count_address: s.count_address,
        table_address: s.table_address,
        layer_count: s.layer_count,
    }
}

/// A text of its own.
fn owned(s: Option<&str>) -> (r: Option<String>)
    ensures
        named(r) == optional_text(s),
        r is Some == s is Some,
{
    match s {
        Some(t) => Some(t.to_string()),
        None => None,
    }
}

/// Starts a diagnosis and names the process.
pub fn run_diagnose(game: Option<&str>, pid: Option<u32>, found: &Vec<GameProc>) -> (r: Result<
    (u32, Diagnosis),
    StartError,
>)
    ensures
        match r {
            Ok((pid1, d)) => {
                &&& resolved(games(found@), optional_text(game), pid) matches Some((pid2, key))
                &&& pid2 == pid1
                &&& profile_of(key, d.game())
                &&& d.wf()
                &&& forall|w: World| #[trigger] d.expects(w) == diagnosis(w, d.game(), pid1)
            },
            Err(e) => start_refusal(resolved(games(found@), optional_text(game), pid)) == Some(e@),
        },
{
    diagnose(
        &ImportArgs {
            game: owned(game),
            pid,
            layer_count_address: None,
            layer_table_address: None,
            expected_count: None,
            edge_mask: false,
        },
        found,
    )
}

/// Starts a search for the layers of a template and names the process.
pub fn run_auto_locate(
    game: Option<&str>,
    pid: Option<u32>,
    layer_count: u32,
    found: &Vec<GameProc>,
) -> (r: Result<(u32, Locator), StartError>)
    ensures
        match r {
            Ok((pid1, l)) => {
                &&& resolved(games(found@), optional_text(game), pid) matches Some((pid2, key))
                &&& pid2 == pid1
                &&& profile_of(key, l.game())
                &&& l.wf()
                &&& forall|w: World| #[trigger]
                    l.expects(w) == located(w, l.game(), pid1, layer_count)
            },
            Err(e) => start_refusal(resolved(games(found@), optional_text(game), pid)) == Some(e@),
        },
{
    auto_locate(game, pid, layer_count, found)
}

/// Starts a look at the first twelve entries of a table and names the process.
pub fn run_inspect(
    game: Option<&str>,
    pid: Option<u32>,
    table: u64,
    count: u32,
    found: &Vec<GameProc>,
) -> (r: Result<(u32, Inspection), StartError>)
    ensures
        match r {
            Ok((pid1, i)) => {
                &&& resolved(games(found@), optional_text(game), pid) matches Some((pid2, key))
                &&& pid2 == pid1
                &&& profile_of(key, i.game())
                &&& i.wf()
                &&& forall|w: World| #[trigger]
                    i.expects(w) == inspected(w, i.game(), table, count, 12)
            },
            Err(e) => start_refusal(resolved(games(found@), optional_text(game), pid)) == Some(e@),
        },
{
    inspect_table(game, pid, table, count, 12, found)
}

/// Whether `args` are the arguments of an import.
pub open spec fn import_arguments(
    args: ImportArgs,
    game: Option<&str>,
    pid: Option<u32>,
    count_address: Option<u64>,
    table_address: Option<u64>,
    expected_count: Option<u32>,
    edge_mask: bool,
) -> bool {
    &&& named(args.game) == optional_text(game)
    &&& args.pid == pid
    &&& args.layer_count_address == count_address
    &&& args.layer_table_address == table_address
    &&& args.expected_count == expected_count
    &&& args.edge_mask == edge_mask
}

/// Starts the import of the geometry in the document `text`, and names the process.
/// Nothing comes of a document with an entry that decides and is cut short.
pub fn run_import(
    text: &str,
    game: Option<&str>,
    pid: Option<u32>,
    count_address: Option<u64>,
    table_address: Option<u64>,
    expected_count: Option<u32>,
    edge_mask: bool,
    found: &Vec<GameProc>,
) -> (r: Option<Result<(u32, Import), StartError>>)
    ensures
        exists|args: ImportArgs| #[trigger]
            import_arguments(
                args,
                game,
                pid,
                count_address,
                table_address,
                expected_count,
                edge_mask,
            ) && started(r, read_document(text@), args, games(found@)),
{
    let args = ImportArgs {
        game: owned(game),
        pid,
        layer_count_address: count_address,
        layer_table_address: table_address,
        expected_count,
        edge_mask,
    };
    let r = load_geometry(text, &args, found);
    assert(import_arguments(
        args,
        game,
        pid,
        count_address,
        table_address,
        expected_count,
        edge_mask,
    ));
    r
}

/// The location in the session that `text` keeps, where there is one and its process
/// is among the games `found`.
pub fn saved_session(text: Option<&str>, found: &Vec<GameProc>) -> (r: Option<Located>)
    ensures
        r == saved_location(optional_text(text), games(found@)),
{
    let session = match text {
        Some(t) => load_session(t),
        None => None,
    };
    match session {
        Some(s) => {
            proof {
                let all = games(found@);
                assert forall|i: int| 0 <= i < all.len() implies (#[trigger] all[i]).pid
                    == found@[i].pid by {}
                if exists|i: int| 0 <= i < found@.len() && (#[trigger] found@[i]).pid == s.pid {
                    let i = choose|i: int|
                        0 <= i < found@.len() && (#[trigger] found@[i]).pid == s.pid;
                    assert(all[i].pid == s.pid);
                }
            }
            if session_pid_is_live(&s, found) {
                Some(locate(&s))
            } else {
                None
            }
        },
        None => None,
    }
}

/// The location in the session that the text keeps, where its process is a game.
pub open spec fn saved_location(
    text: Option<Seq<char>>,
    found: Seq<GameProcView>,
) -> Option<Located> {
    let doc = match text {
        Some(t) => json_document(t),
        None => None,
    };
    let session = match doc {
        Some(t) => session_in(t),
        None => None,
    };
    match session {
        Some(s) => if exists|i: int| 0 <= i < found.len() && (#[trigger] found[i]).pid == s.pid {
            Some(location_of(s))
        } else {
            None
        },
        None => None,
    }
}

} // verus!
