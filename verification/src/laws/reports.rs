//! What is reported of a diagnosis, a search, an import and an inspection, and how a task
//! starts.

use vstd::prelude::*;
use vstd::string::*;

use crate::chain::signature_in;
use crate::device::{plus, World};
use crate::diagnosis::{chain_holds, chain_report, diagnosed, diagnosis, pointers_at};
use crate::geometry::{geometry_of, geometry_readable, GeometryError};
use crate::importer::{
    read_document, started, write_failure, Import, ImportArgs, StartError, StartErrorView,
};
use crate::json::json_document;
use crate::laws::chains::{
    editor_of, first_mark, lemma_signature, livery_of, mark_address, mirrored, reads_no_more,
    root_of, unmarked,
};
use crate::layers::look_score;
use crate::locator::{
    candidate_notices, concluded, lemma_ranked_len, ranked, sample_notices, CandidateView,
    CountsEnd,
};
use crate::notices::{bytes_text, Notice};
use crate::probe::{entry_lines, row_bytes, row_position, scored_entries, TableEntryView};
use crate::procs::{resolved, GameProcView};
use crate::profiles::{shared_layout, GameProfile};
use crate::text::{
    byte_text, digit_char, digit_value, digits_value, hexadecimal, lemma_hexadecimal_text,
    lowercase,
};

verus! {

/// Whether the report `all` starts with the report `first`.
pub open spec fn starts_with(all: Seq<Notice>, first: Seq<Notice>) -> bool {
    first.len() <= all.len() && forall|k: int|
        0 <= k < first.len() ==> #[trigger] all[k] == first[k]
}

/// Whether a report tells of the mark at position `rel` of range `i` in five notices, one
/// behind the other: where it stands, whether it is mirrored, and the three pointers. A
/// pointer behind one that leads nowhere is told as zero.
pub open spec fn tells_chain(
    w: World,
    base: u64,
    all: Seq<Notice>,
    i: int,
    rel: int,
    k: int,
) -> bool {
    let at = mark_address(base, i, rel);
    let root = root_of(w, at);
    let editor = if root != 0 {
        editor_of(w, at)
    } else {
        0
    };
    let livery = if editor != 0 {
        livery_of(w, at)
    } else {
        0
    };
    &&& 0 <= k
    &&& k + 5 <= all.len()
    &&& all[k] == (Notice::SignatureAt {
        pattern: 0,
        offset: (0x0600_0000 + 0x0200_0000 * i + rel) as u64,
    })
    &&& all[k + 1] == (Notice::Mirror { equal: mirrored(w, at) })
    &&& all[k + 2] == (Notice::RootPointer { value: root })
    &&& all[k + 3] == (Notice::EditorPointer { value: editor })
    &&& all[k + 4] == (Notice::LiveryPointer { value: livery })
}

/// Whether a report tells of range `i`: of its first mark, or that it has none.
pub open spec fn tells_range(w: World, base: u64, all: Seq<Notice>, i: int) -> bool {
    &&& forall|rel: int| #[trigger]
        first_mark(w, base, i, rel) ==> exists|k: int| #[trigger]
            tells_chain(w, base, all, i, rel, k)
    &&& unmarked(w, base, i) ==> all.contains(
        Notice::NoMatch { offset: (0x0600_0000 + 0x0200_0000 * i) as u64, size: 0x0200_0000 },
    )
}

proof fn lemma_tells_more(w: World, base: u64, part: Seq<Notice>, all: Seq<Notice>, i: int)
    requires
        tells_range(w, base, part, i),
        starts_with(all, part),
    ensures
        tells_range(w, base, all, i),
{
    assert forall|rel: int| #[trigger] first_mark(w, base, i, rel) implies exists|k: int|
        #[trigger] tells_chain(w, base, all, i, rel, k) by {
        let k = choose|k: int| #[trigger] tells_chain(w, base, part, i, rel, k);
        assert(all[k] == part[k] && all[k + 1] == part[k + 1] && all[k + 2] == part[k + 2] && all[k
            + 3] == part[k + 3] && all[k + 4] == part[k + 4]);
        assert(tells_chain(w, base, all, i, rel, k));
    }
    if unmarked(w, base, i) {
        let n = Notice::NoMatch {
            offset: (0x0600_0000 + 0x0200_0000 * i) as u64,
            size: 0x0200_0000,
        };
        assert(all[part.index_of(n)] == n);
    }
}

proof fn lemma_diagnosed_tells(
    w: World,
    p: GameProfile,
    base: u64,
    i: int,
    valid: bool,
    notices: Seq<Notice>,
    r: int,
)
    requires
        shared_layout(p),
        reads_no_more(w),
        0 <= i <= 3,
    ensures
        starts_with(diagnosed(w, p, base, i, 0, valid, notices).notices, notices),
        i <= r < 3 ==> tells_range(
            w,
            base,
            diagnosed(w, p, base, i, 0, valid, notices).notices,
            r,
        ),
    decreases 3 - i,
{
    reveal_with_fuel(diagnosed, 3);
    if i < 3 {
        lemma_signature(w, p, base, i);
        let (offset, size) = p.scan_regions@[i];
        assert(offset == 0x0600_0000 + 0x0200_0000 * i && size == 0x0200_0000);
        let all = diagnosed(w, p, base, i, 0, valid, notices).notices;
        match signature_in(w, p, base, i, 0) {
            Some(rel) => {
                assert((w.read)(crate::laws::chains::range_start(base, i), 0x0200_0000).len()
                    <= 0x0200_0000);
                let found = plus(offset, rel as u64);
                let at = plus(base, found);
                let c = pointers_at(w, p, at);
                let more = chain_report(
                    notices.push(Notice::SignatureAt { pattern: 0, offset: found }),
                    c,
                );
                lemma_diagnosed_tells(w, p, base, i + 1, valid || chain_holds(c), more, r);
                assert(tells_chain(w, base, more, i, rel, notices.len() as int));
                assert(!unmarked(w, base, i)) by {
                    assert(first_mark(w, base, i, rel));
                }
                assert(tells_range(w, base, more, i));
                lemma_tells_more(w, base, more, all, i);
                assert forall|k: int| 0 <= k < notices.len() implies #[trigger] all[k]
                    == notices[k] by {
                    assert(all[k] == more[k]);
                }
            },
            None => {
                let n = Notice::NoMatch { offset, size };
                let more = notices.push(n);
                lemma_diagnosed_tells(w, p, base, i + 1, valid, more, r);
                assert(more[notices.len() as int] == n);
                assert(more.contains(n));
                assert(tells_range(w, base, more, i));
                lemma_tells_more(w, base, more, all, i);
                assert forall|k: int| 0 <= k < notices.len() implies #[trigger] all[k]
                    == notices[k] by {
                    assert(all[k] == more[k]);
                }
            },
        }
    }
}

/// A diagnosis reports the process and where its main module is, and then tells of each
/// of the three ranges: of the chain from its first mark, or that it has no mark. Where
/// the module cannot be had it says just that.
pub proof fn law_diagnosis_tells_of_each_range(w: World, p: GameProfile, pid: u32, r: int)
    requires
        shared_layout(p),
        reads_no_more(w),
        0 <= r < 3,
    ensures
        w.base is None ==> diagnosis(w, p, pid).notices == seq![
            Notice::ProcessUnavailable { pid },
        ],
        w.base matches Some(base) ==> {
            let all = diagnosis(w, p, pid).notices;
            &&& all.len() > 2
            &&& all[0] == (Notice::Diagnostics { pid })
            &&& all[1] == (Notice::BaseAt { base })
            &&& tells_range(w, base, all, r)
        },
{
    if w.base is Some {
        let base = w.base.unwrap();
        let first = seq![Notice::Diagnostics { pid }, Notice::BaseAt { base }];
        lemma_diagnosed_tells(w, p, base, 0, false, first, r);
        let all = diagnosis(w, p, pid).notices;
        assert(all[0] == first[0] && all[1] == first[1]);
        lemma_signature(w, p, base, r);
        if signature_in(w, p, base, r, 0) is Some {
            let rel = signature_in(w, p, base, r, 0).unwrap();
            assert(first_mark(w, base, r, rel));
            let k = choose|k: int| #[trigger] tells_chain(w, base, all, r, rel, k);
            assert(k + 5 <= all.len());
        } else {
            let n = Notice::NoMatch {
                offset: (0x0600_0000 + 0x0200_0000 * r) as u64,
                size: 0x0200_0000,
            };
            let k = all.index_of(n);
            assert(all[k] == n);
        }
    }
}

/// How many candidates a report tells of.
pub open spec fn candidates_told(all: Seq<Notice>) -> int
    decreases all.len(),
{
    if all.len() == 0 {
        0
    } else {
        candidates_told(all.drop_last()) + (if all.last() is Candidate {
            1int
        } else {
            0
        })
    }
}

/// How many samples a report tells of.
pub open spec fn samples_told(all: Seq<Notice>) -> int
    decreases all.len(),
{
    if all.len() == 0 {
        0
    } else {
        samples_told(all.drop_last()) + (if all.last() is TableSample {
            1int
        } else {
            0
        })
    }
}

proof fn lemma_told_both(a: Seq<Notice>, b: Seq<Notice>)
    ensures
        candidates_told(a + b) == candidates_told(a) + candidates_told(b),
        samples_told(a + b) == samples_told(a) + samples_told(b),
    decreases b.len(),
{
    if b.len() == 0 {
        assert(a + b =~= a);
    } else {
        assert((a + b).drop_last() =~= a + b.drop_last());
        lemma_told_both(a, b.drop_last());
    }
}

proof fn lemma_samples_told(samples: Seq<crate::table::Sample>, n: int)
    requires
        0 <= n,
    ensures
        candidates_told(sample_notices(samples, n)) == 0,
        samples_told(sample_notices(samples, n)) == n,
    decreases n,
{
    if n > 0 {
        lemma_samples_told(samples, n - 1);
        assert(sample_notices(samples, n).drop_last() =~= sample_notices(samples, n - 1));
    }
}

/// The candidates of a list are told one by one: each by its score with the 60 of its
/// layout, its addresses and its layers, and with at most four of its samples.
pub proof fn law_candidates_are_told_one_by_one(s: Seq<CandidateView>, n: int)
    requires
        0 <= n <= s.len(),
    ensures
        candidates_told(candidate_notices(s, n)) == n,
        samples_told(candidate_notices(s, n)) <= 4 * n,
        n > 0 && s[n - 1].finding.samples.len() <= 4 ==> samples_told(candidate_notices(s, n))
            == samples_told(candidate_notices(s, n - 1)) + s[n - 1].finding.samples.len(),
        forall|k: int|
            0 <= k < n ==> candidate_notices(s, n).contains(
                Notice::Candidate {
                    score: ((#[trigger] s[k]).finding.score + 60) as i64,
                    group: s[k].place.group,
                    count: s[k].place.count,
                    field: s[k].place.field,
                    table: s[k].finding.table,
                    validated: s[k].finding.validated as u32,
                },
            ),
    decreases n,
{
    if n > 0 {
        law_candidates_are_told_one_by_one(s, n - 1);
        let c = s[n - 1];
        let before = candidate_notices(s, n - 1);
        let own = Notice::Candidate {
            score: (c.finding.score + 60) as i64,
            group: c.place.group,
            count: c.place.count,
            field: c.place.field,
            table: c.finding.table,
            validated: c.finding.validated as u32,
        };
        let shown = if c.finding.samples.len() < 4 {
            c.finding.samples.len() as int
        } else {
            4
        };
        let behind = sample_notices(c.finding.samples, shown);
        let all = candidate_notices(s, n);
        assert(all == before.push(own) + behind);
        lemma_told_both(before.push(own), behind);
        lemma_samples_told(c.finding.samples, shown);
        assert(before.push(own).drop_last() =~= before);
        assert forall|k: int| 0 <= k < n implies all.contains(
            Notice::Candidate {
                score: ((#[trigger] s[k]).finding.score + 60) as i64,
                group: s[k].place.group,
                count: s[k].place.count,
                field: s[k].place.field,
                table: s[k].finding.table,
                validated: s[k].finding.validated as u32,
            },
        ) by {
            let x = Notice::Candidate {
                score: (s[k].finding.score + 60) as i64,
                group: s[k].place.group,
                count: s[k].place.count,
                field: s[k].place.field,
                table: s[k].finding.table,
                validated: s[k].finding.validated as u32,
            };
            if k < n - 1 {
                let m = before.index_of(x);
                assert(all[m] == before[m]);
            } else {
                assert(all[before.len() as int] == own);
            }
        }
    }
}

/// A search that ends with groups tells of the best five, says so where their number of
/// layers is not the one that was entered, and ends with the session that is kept.
pub proof fn law_search_tells_of_the_best_five(pid: u32, entered: u32, e: CountsEnd)
    ensures
        e.groups.len() == 0 ==> concluded(pid, entered, e).session is None && concluded(
            pid,
            entered,
            e,
        ).notices == e.notices,
        e.groups.len() > 0 ==> {
            let r = concluded(pid, entered, e);
            &&& r.session matches Some(s) && r.notices.last() == (Notice::SavedSession {
                session: s,
            }) && s.pid == pid && s.layer_count == e.matched
            &&& starts_with(r.notices, e.notices)
            &&& candidates_told(r.notices) == candidates_told(e.notices) + (if e.groups.len() < 5 {
                e.groups.len() as int
            } else {
                5
            })
            &&& e.matched != entered ==> r.notices.len() > e.notices.len()
                && r.notices[e.notices.len() as int] == (Notice::LockedOnto {
                matched: e.matched,
                entered,
            })
            &&& e.matched == entered ==> r.notices[e.notices.len() as int] is Candidate
        },
{
    lemma_ranked_len(e.groups);
    if e.groups.len() > 0 {
        let best = ranked(e.groups);
        let r = concluded(pid, entered, e);
        let locked = if e.matched != entered {
            e.notices.push(Notice::LockedOnto { matched: e.matched, entered })
        } else {
            e.notices
        };
        let shown = if best.len() < 5 {
            best.len() as int
        } else {
            5
        };
        let told = candidate_notices(best, shown);
        law_candidates_are_told_one_by_one(best, shown);
        lemma_told_both(locked, told);
        assert(r.notices.drop_last() =~= locked + told);
        if e.matched != entered {
            assert(locked.drop_last() =~= e.notices);
        } else {
            lemma_first_told(best, shown);
            assert(r.notices[e.notices.len() as int] == told[0]);
        }
    }
}

proof fn lemma_first_told(s: Seq<CandidateView>, n: int)
    requires
        0 < n <= s.len(),
    ensures
        candidate_notices(s, n).len() > 0,
        candidate_notices(s, n)[0] is Candidate,
    decreases n,
{
    reveal_with_fuel(candidate_notices, 2);
    if n > 1 {
        lemma_first_told(s, n - 1);
    }
}

/// Advice behind a write that failed: in one of the first sixteen slots that the table is
/// likely a wrong one, and behind them that the layers may be grouped.
pub proof fn law_failed_write_is_explained(notices: Seq<Notice>, i: int)
    requires
        0 <= i < u32::MAX,
    ensures
        starts_with(write_failure(notices, i), notices),
        ({
            let n = notices.len() as int;
            let all = write_failure(notices, i);
            &&& all[n] == (Notice::WriteFailed { slot: (i + 1) as u32 })
            &&& i <= 15 ==> {
                &&& all.len() == n + 4
                &&& all[n + 1] == Notice::LikelyWrongTable
                &&& all[n + 2] == Notice::UseLargerTemplate
                &&& all[n + 3] == Notice::LocateAgain
            }
            &&& i > 15 ==> {
                &&& all.len() == n + 3
                &&& all[n + 1] == Notice::PossiblyGrouped
                &&& all[n + 2] == Notice::CheckEditor
            }
        }),
{
}

/// An import starts just where the document is a geometry and a supported game is meant;
/// where no game is named, Forza Horizon 6 is. It works on the process that is meant, with
/// the addresses, the number of layers and the masks that were asked for, and a number of
/// layers of two bytes for Forza Horizon 6 only.
pub proof fn law_import_starts_as_asked(
    r: Option<Result<(u32, Import), StartError>>,
    text: Seq<char>,
    args: ImportArgs,
    found: Seq<GameProcView>,
)
    requires
        started(r, read_document(text), args, found),
    ensures
        ({
            let wanted = match args.game {
                Some(g) => g@,
                None => "fh6"@,
            };
            let meant = resolved(found, Some(wanted), args.pid);
            &&& json_document(text) is None ==> (r matches Some(Err(e)) && e@
                == StartErrorView::Geometry(GeometryError::NotJson))
            &&& json_document(text) matches Some(doc) ==> geometry_readable(doc) ==> match (
                geometry_of(doc),
                meant,
            ) {
                (Err(e), _) => r matches Some(Err(f)) && f@ == StartErrorView::Geometry(e),
                (Ok(g), None) => r matches Some(Err(f)) && f@ == StartErrorView::NoProcess,
                (Ok(g), Some((pid, key))) => if lowercase(key) == "fh6"@ || lowercase(key)
                    == "fh5"@ {
                    r matches Some(Ok((p, import))) && {
                        &&& p == pid
                        &&& import.job().pid == pid
                        &&& import.job().geometry == g
                        &&& import.job().short_count <==> key == "fh6"@
                        &&& import.job().count_address == args.layer_count_address
                        &&& import.job().table_address == args.layer_table_address
                        &&& import.job().expected_count == args.expected_count
                        &&& import.job().edge_mask == args.edge_mask
                        &&& shared_layout(import.job().profile)
                    }
                } else {
                    r matches Some(Err(f)) && f@ == StartErrorView::UnsupportedGame(key)
                },
            }
        }),
{
}

/// The rows of an inspection show every byte once: byte `k` of a layer stands in row
/// `k / 16`, at place `k % 16`.
pub proof fn law_rows_show_every_byte(
    e: TableEntryView,
    position: Seq<char>,
    scale: Seq<char>,
    k: int,
)
    ensures
        e.layer is None ==> entry_lines(e, position, scale).len() == 1,
        e.layer matches Some((look, raw)) ==> {
            &&& 16 * (entry_lines(e, position, scale).len() - 2) >= raw.len()
            &&& 16 * (entry_lines(e, position, scale).len() - 3) < raw.len() || raw.len() == 0
            &&& 0 <= k < raw.len() ==> k % 16 < row_bytes(raw, k / 16).len() && row_bytes(
                raw,
                k / 16,
            )[k % 16] == raw[k]
            &&& 0 <= k < raw.len() ==> row_bytes(raw, k / 16).len() <= 16
        },
{
}

/// Bytes are shown as two digits each, with a blank between them: the digits of byte `k`
/// stand at `3 * k` and behind it, and they write that byte in base 16.
pub proof fn law_bytes_are_shown_by_two_digits(b: Seq<u8>, k: int)
    ensures
        b.len() > 0 ==> bytes_text(b).len() == 3 * b.len() - 1,
        b.len() == 0 ==> bytes_text(b).len() == 0,
        0 <= k < b.len() ==> digits_value(bytes_text(b).subrange(3 * k, 3 * k + 2), 16) == Some(
            b[k] as nat,
        ),
        0 <= k < b.len() - 1 ==> bytes_text(b)[3 * k + 2] == ' ',
    decreases b.len(),
{
    reveal_strlit(" ");
    if b.len() == 1 {
        lemma_byte_digits(b[0]);
        assert(bytes_text(b).subrange(0, 2) =~= byte_text(b[0]));
    } else if b.len() > 1 {
        let front = b.drop_last();
        law_bytes_are_shown_by_two_digits(front, k);
        lemma_byte_digits(b.last());
        let all = bytes_text(b);
        let before = bytes_text(front);
        assert(all == before + " "@ + byte_text(b.last()));
        if 0 <= k < front.len() {
            assert(all.subrange(3 * k, 3 * k + 2) =~= before.subrange(3 * k, 3 * k + 2));
        } else if k == b.len() - 1 {
            assert(all.subrange(3 * k, 3 * k + 2) =~= byte_text(b.last()));
        }
    }
}

proof fn lemma_byte_digits(b: u8)
    ensures
        byte_text(b).len() == 2,
        digits_value(byte_text(b), 16) == Some(b as nat),
{
    reveal_with_fuel(digits_value, 3);
    let s = byte_text(b);
    let high = (b / 16) as nat;
    let low = (b % 16) as nat;
    assert(digit_value(digit_char(high)) == Some(high));
    assert(digit_value(digit_char(low)) == Some(low));
    assert(s.drop_last()[0] == digit_char(high));
    assert(s.drop_last().drop_last() =~= Seq::<char>::empty());
}

/// The position of a row has three digits in base 16, with zeros in front.
pub proof fn law_row_positions_have_three_digits(n: nat)
    requires
        n < 0x1000,
    ensures
        row_position(n).len() == 3,
        digits_value(row_position(n), 16) == Some(n),
{
    reveal_with_fuel(digits_value, 4);
    reveal_with_fuel(hexadecimal, 4);
    reveal_strlit("0");
    reveal_strlit("00");
    lemma_hexadecimal_text(n);
    let s = row_position(n);
    let a = digit_char(n / 256);
    let b = digit_char((n / 16) % 16);
    let c = digit_char(n % 16);
    assert(digit_value(a) == Some(n / 256));
    assert(digit_value(b) == Some((n / 16) % 16));
    assert(digit_value(c) == Some(n % 16));
    assert(s =~= seq![a, b, c]) by {
        if n < 16 {
            assert(hexadecimal(n) =~= seq![c]);
        } else if n < 256 {
            assert(hexadecimal(n) =~= seq![b, c]);
        } else {
            assert((n / 16) / 16 == n / 256);
            assert(hexadecimal(n) =~= seq![a, b, c]);
        }
    }
    assert(s.drop_last() =~= seq![a, b]);
    assert(s.drop_last().drop_last() =~= seq![a]);
    assert(s.drop_last().drop_last().drop_last() =~= Seq::<char>::empty());
    assert(((n / 256) * 16 + (n / 16) % 16) * 16 + n % 16 == n);
}

/// The entries that an inspection counts are those that point to something with at least
/// one point as a layer.
pub proof fn law_inspection_counts_what_looks_like_a_layer(s: Seq<TableEntryView>)
    ensures
        scored_entries(s) == s.filter(
            |e: TableEntryView| e.layer matches Some((look, raw)) && look_score(look) >= 1,
        ).len(),
    decreases s.len(),
{
    reveal(Seq::filter);
    if s.len() > 0 {
        law_inspection_counts_what_looks_like_a_layer(s.drop_last());
    }
}

} // verus!
