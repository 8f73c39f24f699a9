//! Which running processes are games, and which of them is meant.

use vstd::prelude::*;
use vstd::string::*;

use crate::profiles::{all_profiles, is_fh5, is_fh6, GameProfile};
use crate::text::{decimal, lowercase, push_decimal, same_text, to_lowercase};

verus! {

/// A running game.
#[derive(Clone, Debug)]
pub struct GameProc {
    pub pid: u32,
    pub name: String,
    pub profile_key: String,
}

/// A running game, its texts as characters.
pub struct GameProcView {
    pub pid: u32,
    pub name: Seq<char>,
    pub profile_key: Seq<char>,
}

impl View for GameProc {
    type V = GameProcView;

    open spec fn view(&self) -> GameProcView {
        GameProcView { pid: self.pid, name: self.name@, profile_key: self.profile_key@ }
    }
}

/// The games of a list.
pub open spec fn games(v: Seq<GameProc>) -> Seq<GameProcView> {
    v.map_values(|g: GameProc| g@)
}

impl GameProc {
    /// How the game is shown in a list.
    pub fn label(&self) -> (r: String)
        ensures
            r@ == self.name@ + " pid "@ + decimal(self.pid as nat),
    {
        let mut s = self.name.clone();
        s.append(" pid ");
        push_decimal(&mut s, self.pid as u64);
        s
    }
}

/// The key of the game that a process of this name is, where it is one: the name
/// decides, whatever the case of its letters.
pub open spec fn known_key(name: Seq<char>) -> Option<Seq<char>> {
    if lowercase(name) == lowercase("ForzaHorizon6.exe"@) || lowercase(name) == lowercase(
        "ForzaHorizon6-Win64-Shipping.exe"@,
    ) {
        Some("fh6"@)
    } else if lowercase(name) == lowercase("ForzaHorizon5.exe"@) {
        Some("fh5"@)
    } else {
        None
    }
}

/// The games among the processes `running`, in their order.
pub open spec fn games_among(running: Seq<(u32, String)>) -> Seq<GameProcView>
    decreases running.len(),
{
    if running.len() == 0 {
        Seq::empty()
    } else {
        let before = games_among(running.drop_last());
        let (pid, name) = running.last();
        match known_key(name@) {
            Some(key) => before.push(GameProcView { pid, name: name@, profile_key: key }),
            None => before,
        }
    }
}

/// Whether the profile `p` goes with processes of the name that is `lower` in
/// lower case.
fn runs_as(p: &GameProfile, lower: &String) -> (r: bool)
    ensures
        r <==> exists|i: int|
            0 <= i < p.process_names@.len() && lowercase((#[trigger] p.process_names@[i])@)
                == lower@,
{
    for i in 0..p.process_names.len()
        invariant
            forall|j: int|
                0 <= j < i ==> lowercase((#[trigger] p.process_names@[j])@) != lower@,
    {
        let name = to_lowercase(p.process_names[i]);
        if same_text(name.as_str(), lower.as_str()) {
            assert(lowercase(p.process_names@[i as int]@) == lower@);
            return true;
        }
    }
    false
}

/// The key of the game that a process of this name is.
fn key_of(profiles: &Vec<GameProfile>, name: &str) -> (r: Option<&'static str>)
    requires
        profiles@.len() == 2,
        is_fh6(profiles@[0]),
        is_fh5(profiles@[1]),
    ensures
        match r {
            Some(key) => known_key(name@) == Some(key@),
            None => known_key(name@) is None,
        },
{
    let lower = to_lowercase(name);
    for k in 0..profiles.len()
        invariant
            profiles@.len() == 2,
            is_fh6(profiles@[0]),
            is_fh5(profiles@[1]),
            lower@ == lowercase(name@),
            k > 0 ==> lower@ != lowercase("ForzaHorizon6.exe"@) && lower@ != lowercase(
                "ForzaHorizon6-Win64-Shipping.exe"@,
            ),
            k > 1 ==> lower@ != lowercase("ForzaHorizon5.exe"@),
    {
        let hit = runs_as(&profiles[k], &lower);
        proof {
            let names = profiles@[k as int].process_names@;
            assert(lowercase(names[0]@) == lower@ ==> hit);
            if k == 0 {
                assert(lowercase(names[1]@) == lower@ ==> hit);
            }
        }
        if hit {
            return Some(profiles[k].key);
        }
    }
    None
}

/// Every process of `running` (pid and name) that is a supported game.
pub fn find_game_processes(running: &Vec<(u32, String)>) -> (r: Vec<GameProc>)
    ensures
        games(r@) == games_among(running@),
{
    let profiles = all_profiles();
    let mut out: Vec<GameProc> = Vec::new();
    assert(running@.take(0) =~= Seq::<(u32, String)>::empty());
    for i in 0..running.len()
        invariant
            profiles@.len() == 2,
            is_fh6(profiles@[0]),
            is_fh5(profiles@[1]),
            games(out@) == games_among(running@.take(i as int)),
    {
        let ghost before = out@;
        if let Some(key) = key_of(&profiles, running[i].1.as_str()) {
            out.push(
                GameProc {
                    pid: running[i].0,
                    name: running[i].1.clone(),
                    profile_key: key.to_string(),
                },
            );
            assert(games(out@) =~= games(before).push(out@.last()@));
        }
        proof {
            assert(running@.take(i + 1).drop_last() =~= running@.take(i as int));
        }
    }
    assert(running@.take(running@.len() as int) =~= running@);
    out
}

/// Where the first game with this pid stands; the length where none does.
pub open spec fn first_with_pid(found: Seq<GameProcView>, pid: u32) -> int
    decreases found.len(),
{
    if found.len() == 0 || found[0].pid == pid {
        0
    } else {
        1 + first_with_pid(found.drop_first(), pid)
    }
}

/// Where the first game with this key stands; the length where none does.
pub open spec fn first_with_key(found: Seq<GameProcView>, key: Seq<char>) -> int
    decreases found.len(),
{
    if found.len() == 0 || found[0].profile_key == key {
        0
    } else {
        1 + first_with_key(found.drop_first(), key)
    }
}

/// The first game with a pid stands where no game before it has that pid.
pub proof fn lemma_first_with_pid(found: Seq<GameProcView>, pid: u32, k: int)
    requires
        0 <= k <= found.len(),
        k < found.len() ==> found[k].pid == pid,
        forall|j: int| 0 <= j < k ==> (#[trigger] found[j]).pid != pid,
    ensures
        first_with_pid(found, pid) == k,
    decreases found.len(),
{
    if k > 0 {
        assert(found[0].pid != pid);
        assert forall|j: int| 0 <= j < k - 1 implies (#[trigger] found.drop_first()[j]).pid
            != pid by {
            assert(found.drop_first()[j] == found[j + 1]);
        }
        lemma_first_with_pid(found.drop_first(), pid, k - 1);
    }
}

proof fn lemma_first_with_key(found: Seq<GameProcView>, key: Seq<char>, k: int)
    requires
        0 <= k <= found.len(),
        k < found.len() ==> found[k].profile_key == key,
        forall|j: int| 0 <= j < k ==> (#[trigger] found[j]).profile_key != key,
    ensures
        first_with_key(found, key) == k,
    decreases found.len(),
{
    if k > 0 {
        assert(found[0].profile_key != key);
        assert forall|j: int| 0 <= j < k - 1 implies (
        #[trigger] found.drop_first()[j]).profile_key != key by {
            assert(found.drop_first()[j] == found[j + 1]);
        }
        lemma_first_with_key(found.drop_first(), key, k - 1);
    }
}

/// The process that is meant and the key of its profile. A forced pid wins: with
/// the key of the game that runs under it, else with the wanted key. Without one
/// it is the first game with the wanted key, and where no key is wanted the first game.
pub open spec fn resolved(
    found: Seq<GameProcView>,
    prefer_key: Option<Seq<char>>,
    pid_override: Option<u32>,
) -> Option<(u32, Seq<char>)> {
    match pid_override {
        Some(pid) => {
            let k = first_with_pid(found, pid);
            if k < found.len() {
                Some((pid, found[k].profile_key))
            } else {
                match prefer_key {
                    Some(key) => Some((pid, key)),
                    None => None,
                }
            }
        },
        None => {
            let k = match prefer_key {
                Some(key) => first_with_key(found, key),
                None => 0,
            };
            if k < found.len() {
                Some((found[k].pid, found[k].profile_key))
            } else {
                None
            }
        },
    }
}

/// The characters of an optional text.
pub open spec fn optional_text(s: Option<&str>) -> Option<Seq<char>> {
    match s {
        Some(t) => Some(t@),
        None => None,
    }
}

/// Resolves the process that is meant among the games `found`.
pub fn resolve_pid(
    found: &Vec<GameProc>,
    prefer_key: Option<&str>,
    pid_override: Option<u32>,
) -> (r: Option<(u32, String)>)
    ensures
        match r {
            Some((pid, key)) => resolved(games(found@), optional_text(prefer_key), pid_override)
                == Some((pid, key@)),
            None => resolved(games(found@), optional_text(prefer_key), pid_override) is None,
        },
{
    let ghost all = games(found@);
    if let Some(pid) = pid_override {
        for i in 0..found.len()
            invariant
                all == games(found@),
                pid_override == Some(pid),
                forall|j: int| 0 <= j < i ==> (#[trigger] all[j]).pid != pid,
        {
            assert(all[i as int] == found@[i as int]@);
            if found[i].pid == pid {
                proof {
                    lemma_first_with_pid(all, pid, i as int);
                }
                return Some((pid, found[i].profile_key.clone()));
            }
        }
        proof {
            lemma_first_with_pid(all, pid, all.len() as int);
        }
        return match prefer_key {
            Some(key) => Some((pid, key.to_string())),
            None => None,
        };
    }
    if let Some(key) = prefer_key {
        for i in 0..found.len()
            invariant
                all == games(found@),
                pid_override is None,
                prefer_key == Some(key),
                forall|j: int| 0 <= j < i ==> (#[trigger] all[j]).profile_key != key@,
        {
            assert(all[i as int] == found@[i as int]@);
            if same_text(found[i].profile_key.as_str(), key) {
                proof {
                    lemma_first_with_key(all, key@, i as int);
                }
                return Some((found[i].pid, found[i].profile_key.clone()));
            }
        }
        proof {
            lemma_first_with_key(all, key@, all.len() as int);
        }
        return None;
    }
    if found.len() > 0 {
        assert(all[0] == found@[0]@);
        Some((found[0].pid, found[0].profile_key.clone()))
    } else {
        None
    }
}

/// Whether a game with this pid is among `found`.
pub fn pid_is_live(found: &Vec<GameProc>, pid: u32) -> (r: bool)
    ensures
        r <==> exists|i: int| 0 <= i < found@.len() && (#[trigger] found@[i]).pid == pid,
{
    for i in 0..found.len()
        invariant
            forall|j: int| 0 <= j < i ==> (#[trigger] found@[j]).pid != pid,
    {
        if found[i].pid == pid {
            return true;
        }
    }
    false
}

/// A forced process is the one that is meant, whatever runs.
pub proof fn law_forced_process_wins(
    found: Seq<GameProcView>,
    prefer_key: Option<Seq<char>>,
    pid: u32,
)
    ensures
        resolved(found, prefer_key, Some(pid)) matches Some((meant, key)) ==> meant == pid,
        prefer_key is Some ==> resolved(found, prefer_key, Some(pid)) is Some,
{
}

/// The first game with a key, and none before it, has the key.
proof fn lemma_key_at(found: Seq<GameProcView>, key: Seq<char>)
    ensures
        0 <= first_with_key(found, key) <= found.len(),
        first_with_key(found, key) < found.len() ==> found[first_with_key(found, key)].profile_key
            == key,
        forall|j: int|
            0 <= j < first_with_key(found, key) ==> (#[trigger] found[j]).profile_key != key,
    decreases found.len(),
{
    if found.len() > 0 && found[0].profile_key != key {
        let rest = found.drop_first();
        lemma_key_at(rest, key);
        assert forall|j: int| 0 <= j < first_with_key(found, key) implies (
        #[trigger] found[j]).profile_key != key by {
            if j > 0 {
                assert(rest[j - 1] == found[j]);
            }
        }
    }
}

/// Whether process `i` is the first of a game.
pub open spec fn first_of_game(found: Seq<GameProcView>, key: Seq<char>, i: int) -> bool {
    &&& 0 <= i < found.len()
    &&& found[i].profile_key == key
    &&& forall|j: int| 0 <= j < i ==> (#[trigger] found[j]).profile_key != key
}

/// Where a game is wanted and no process is forced, the process that is meant is the
/// first of that game; where none of it runs, no process is meant.
pub proof fn law_only_the_wanted_game_is_meant(found: Seq<GameProcView>, key: Seq<char>)
    ensures
        match resolved(found, Some(key), None) {
            Some((pid, meant)) => meant == key && exists|i: int| #[trigger]
                first_of_game(found, key, i) && found[i].pid == pid,
            None => forall|i: int|
                0 <= i < found.len() ==> (#[trigger] found[i]).profile_key != key,
        },
{
    lemma_key_at(found, key);
    let k = first_with_key(found, key);
    if k < found.len() {
        assert(first_of_game(found, key, k));
    }
}

} // verus!
