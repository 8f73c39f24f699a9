//! What the window does with what it is told.

use vstd::prelude::*;
use vstd::string::*;

use crate::backend::Located;
use crate::gui::{
    after_message, approach, entered_count, far_off, json_name, json_of_image, logged,
    newest_order, newest_with, without_repeats, Approach, DatedFile, DeskView, Message,
};
use crate::text::{all_space, decimal, lemma_decimal_text, lemma_trimmed_around};

verus! {

/// The log keeps every line while it has room for 4000. One line more, and the oldest
/// 1000 go: 3001 stay, in their order.
pub proof fn law_log_keeps_the_latest_lines(log: Seq<Seq<char>>, line: Seq<char>)
    ensures
        log.len() < 4000 ==> logged(log, line) == log.push(line),
        log.len() == 4000 ==> {
            &&& logged(log, line).len() == 3001
            &&& logged(log, line).last() == line
            &&& forall|i: int|
                0 <= i < 3000 ==> #[trigger] logged(log, line)[i] == log[i + 1000]
        },
{
}

/// A message changes just what it is about: a line the log, a state the state, and the
/// end of a task that it is no longer running.
pub proof fn law_message_changes_one_thing(d: DeskView, m: Message)
    ensures
        m matches Message::Log(s) ==> after_message(d, m).status == d.status && after_message(
            d,
            m,
        ).busy == d.busy && (d.log.len() < 4000 ==> after_message(d, m).log == d.log.push(s@)),
        m matches Message::Status(s) ==> after_message(d, m).status == s@ && after_message(
            d,
            m,
        ).busy == d.busy && after_message(d, m).log == d.log,
        m is Finished ==> !after_message(d, m).busy && after_message(d, m).status == d.status
            && after_message(d, m).log == d.log,
{
}

/// Whether the location that was kept is of the process that is meant, where one is.
pub open spec fn of_process(pid: Option<u32>, s: Located) -> bool {
    pid is None || pid == Some(s.pid)
}

/// How the layers are found. Of another game than Forza Horizon 6 the import finds them.
/// Where a number of layers was entered, the location that was kept is taken if it is of
/// the process and at most three layers off, and else they are searched for. Where none
/// was entered the import finds them. It is said of a location of the process that it
/// does not fit, and of no other.
pub proof fn law_layers_are_found_where_they_fit(
    pid: Option<u32>,
    layer_count: Option<u32>,
    saved: Option<Located>,
)
    ensures
        approach(false, pid, layer_count, saved) == Approach::Direct,
        !far_off(false, pid, layer_count, saved),
        layer_count is None ==> approach(true, pid, layer_count, saved) == Approach::Direct,
        layer_count matches Some(n) ==> saved is None ==> approach(true, pid, layer_count, saved)
            == Approach::Locate(n),
        layer_count matches Some(n) ==> saved matches Some(s) ==> approach(
            true,
            pid,
            layer_count,
            saved,
        ) == (if of_process(pid, s) && n <= s.layer_count + 3 && s.layer_count <= n + 3 {
            Approach::Saved(s)
        } else {
            Approach::Locate(n)
        }),
        saved is None ==> !far_off(true, pid, layer_count, saved),
        saved matches Some(s) ==> (far_off(true, pid, layer_count, saved) <==> of_process(pid, s)
            && !(approach(true, pid, layer_count, saved) is Saved)),
{
}

/// A number of layers is read with white space around it, and only one of 32 bits.
pub proof fn law_entered_number_is_read(before: Seq<char>, n: nat, after: Seq<char>)
    requires
        all_space(before),
        all_space(after),
    ensures
        entered_count(before + decimal(n) + after) == (if n <= 0xFFFF_FFFF {
            Some(n)
        } else {
            None
        }),
{
    lemma_decimal_text(n);
    lemma_trimmed_around(before, decimal(n), after);
}

/// A name with something before `.json` at its end is that of a geometry, and one that
/// ends otherwise is not. It belongs to an image whose name, without its ending, it
/// starts with.
pub proof fn law_geometries_are_known_by_name(stem: Seq<char>, rest: Seq<char>, end: Seq<char>)
    requires
        end.len() == 5,
    ensures
        json_name(stem + rest + end) <==> (end == ".json"@ && stem.len() + rest.len() > 0),
        json_of_image(stem + rest + end, stem) <==> json_name(stem + rest + end),
{
    let name = stem + rest + end;
    assert(name.subrange(name.len() - 5, name.len() as int) =~= end);
    assert(name.subrange(0, stem.len() as int) =~= stem);
}

/// Whether files stand the newest first, and of equally new ones the earlier first.
pub open spec fn ranked_by_age(files: Seq<DatedFile>, order: Seq<int>) -> bool {
    forall|i: int, j: int|
        0 <= i < j < order.len() ==> {
            let a = #[trigger] order[i];
            let b = #[trigger] order[j];
            files[a].seconds > files[b].seconds || (files[a].seconds == files[b].seconds && a < b)
        }
}

/// Whether all numbers of a list are below `k`.
pub open spec fn all_under(order: Seq<int>, k: int) -> bool {
    forall|i: int| 0 <= i < order.len() ==> 0 <= #[trigger] order[i] < k
}

proof fn lemma_placed_by_age(files: Seq<DatedFile>, order: Seq<int>, k: int, bound: int)
    requires
        ranked_by_age(files, order),
        all_under(order, k),
        0 <= k < bound,
    ensures
        ranked_by_age(files, newest_with(files, order, k)),
        all_under(newest_with(files, order, k), bound),
        newest_with(files, order, k).len() == order.len() + 1,
        order.len() > 0 && files[order.last()].seconds < files[k].seconds ==> newest_with(
            files,
            order,
            k,
        ).last() == order.last(),
        forall|x: int| #[trigger]
            newest_with(files, order, k).contains(x) ==> x == k || order.contains(x),
    decreases order.len(),
{
    let r = newest_with(files, order, k);
    if order.len() == 0 || files[order.last()].seconds >= files[k].seconds {
        assert forall|x: int| #[trigger] r.contains(x) implies x == k || order.contains(x) by {
            let m = r.index_of(x);
            if m < order.len() {
                assert(order[m] == x);
            }
        }
        assert forall|i: int, j: int| 0 <= i < j < r.len() implies ({
            let a = #[trigger] r[i];
            let b = #[trigger] r[j];
            files[a].seconds > files[b].seconds || (files[a].seconds == files[b].seconds && a < b)
        }) by {
            if j == order.len() {
                assert(order[i] < k);
                if i < order.len() - 1 {
                    assert(files[order[i]].seconds >= files[order[order.len() - 1]].seconds);
                }
            }
        }
    } else {
        let front = order.drop_last();
        assert forall|i: int| 0 <= i < front.len() implies 0 <= #[trigger] front[i] < k by {
            assert(front[i] == order[i]);
        }
        assert forall|i: int, j: int| 0 <= i < j < front.len() implies ({
            let a = #[trigger] front[i];
            let b = #[trigger] front[j];
            files[a].seconds > files[b].seconds || (files[a].seconds == files[b].seconds && a < b)
        }) by {
            assert(front[i] == order[i] && front[j] == order[j]);
        }
        lemma_placed_by_age(files, front, k, bound);
        let before = newest_with(files, front, k);
        let last = order[order.len() - 1];
        assert(0 <= last < k);
        assert forall|x: int| #[trigger] r.contains(x) implies x == k || order.contains(x) by {
            let m = r.index_of(x);
            if m < before.len() {
                assert(before[m] == x);
                assert(before.contains(x));
                if x != k {
                    assert(order[front.index_of(x)] == x);
                }
            } else {
                assert(order[order.len() - 1] == x);
            }
        }
        assert forall|i: int, j: int| 0 <= i < j < r.len() implies ({
            let a = #[trigger] r[i];
            let b = #[trigger] r[j];
            files[a].seconds > files[b].seconds || (files[a].seconds == files[b].seconds && a < b)
        }) by {
            if j == before.len() {
                assert(before.contains(before[i]));
                if before[i] != k {
                    let m = front.index_of(before[i]);
                    assert(order[m] == before[i]);
                    assert(order[order.len() - 1] == last);
                }
            }
        }
    }
}

proof fn lemma_order_by_age(files: Seq<DatedFile>, n: int)
    requires
        0 <= n,
    ensures
        ranked_by_age(files, newest_order(files, n)),
        all_under(newest_order(files, n), n),
        newest_order(files, n).len() == n,
    decreases n,
{
    if n > 0 {
        lemma_order_by_age(files, n - 1);
        lemma_placed_by_age(files, newest_order(files, n - 1), n - 1, n);
    }
}

/// Every file is listed once, the newest first, and of equally new ones the one that came
/// first.
pub proof fn law_files_are_listed_by_age(files: Seq<DatedFile>)
    ensures
        newest_order(files, files.len() as int).len() == files.len(),
        all_under(newest_order(files, files.len() as int), files.len() as int),
        ranked_by_age(files, newest_order(files, files.len() as int)),
{
    lemma_order_by_age(files, files.len() as int);
}

/// A list loses a file just where the path is the one before it.
pub proof fn law_only_repeats_are_left_out(files: Seq<DatedFile>, order: Seq<int>)
    ensures
        forall|i: int|
            0 < i < without_repeats(files, order).len() ==> files[without_repeats(files, order)[i
                - 1]].path@ != files[#[trigger] without_repeats(files, order)[i]].path@,
        (forall|i: int|
            0 < i < order.len() ==> files[order[i - 1]].path@ != files[#[trigger] order[i]].path@)
            ==> without_repeats(files, order) == order,
        order.len() > 0 ==> without_repeats(files, order).len() > 0 && without_repeats(
            files,
            order,
        )[0] == order[0] && files[without_repeats(files, order).last()].path@
            == files[order.last()].path@,
    decreases order.len(),
{
    if order.len() > 0 {
        let front = order.drop_last();
        let before = without_repeats(files, front);
        let r = without_repeats(files, order);
        law_only_repeats_are_left_out(files, front);
        assert forall|i: int| 0 < i < r.len() implies files[r[i - 1]].path@ != files[
            #[trigger] r[i]
        ].path@ by {
            if i < before.len() {
                assert(r[i] == before[i]);
            }
        }
        if forall|i: int|
            0 < i < order.len() ==> files[order[i - 1]].path@ != files[#[trigger] order[i]].path@ {
            assert forall|i: int| 0 < i < front.len() implies files[front[i - 1]].path@ != files[
                #[trigger] front[i]
            ].path@ by {
                assert(front[i] == order[i]);
            }
            assert(before == front);
            if front.len() > 0 {
                assert(files[order[order.len() - 1]].path@ != files[order[order.len() - 2]].path@);
            }
            assert(r =~= order);
        }
    }
}

} // verus!
