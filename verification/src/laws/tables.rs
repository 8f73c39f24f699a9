//! Which tables are those of a template: every complete one is found, and what is found
//! holds the template.

use vstd::prelude::*;

use crate::device::{plus, World};
use crate::laws::layers::{
    complete_bytes, field_points, law_layer_is_known_by_its_bytes,
};
use crate::layers::{layer_bytes, look_at, look_score, strict_layer, LayerBytes};
use crate::profiles::{shared_layout, GameProfile};
use crate::table::{
    coverage, entries, entry_limit, layer_like, layers_among, layers_counted, lemma_layers_among,
    lemma_layers_prefix, lesser, looks_at, samples_of, strict_among, table_found, table_score,
    total_score, writable_ones, Sample,
};

verus! {

/// The bytes of the layer at `at`.
pub open spec fn bytes_at(w: World, at: u64) -> LayerBytes {
    LayerBytes {
        position: (w.read)((at + 0x18) as u64, 8),
        scale: (w.read)((at + 0x28) as u64, 8),
        color: (w.read)((at + 0x74) as u64, 4),
        shape: (w.read)((at + 0x7A) as u64, 1),
        mask: (w.read)((at + 0x78) as u64, 1),
    }
}

/// Entry `i` of the table at `table`.
pub open spec fn entry(w: World, table: u64, i: int) -> u64 {
    w.u64_at((table + 8 * i) as u64)
}

/// How many fields of the layer at `at` look as those of a layer do.
pub open spec fn points(w: World, at: u64) -> int {
    field_points(bytes_at(w, at))
}

/// Whether a complete layer stands at `at`.
pub open spec fn complete_at(w: World, at: u64) -> bool {
    complete_bytes(bytes_at(w, at))
}

/// The smaller of two numbers.
pub open spec fn least(a: int, b: int) -> int {
    if a <= b {
        a
    } else {
        b
    }
}

/// The greater of two numbers.
pub open spec fn most(a: int, b: int) -> int {
    if a >= b {
        a
    } else {
        b
    }
}

/// Where a pointer leads, its layer is read at the known offsets.
pub proof fn lemma_bytes_at(w: World, p: GameProfile, at: u64)
    requires
        shared_layout(p),
        w.writable(at),
    ensures
        layer_bytes(w, p, at) == bytes_at(w, at),
        look_score(look_at(w, p, at)) == points(w, at),
        strict_layer(layer_bytes(w, p, at)) == complete_at(w, at),
        0 <= points(w, at) <= 5,
        complete_at(w, at) ==> points(w, at) >= 4,
{
    assert(layer_bytes(w, p, at) =~= bytes_at(w, at));
    law_layer_is_known_by_its_bytes(bytes_at(w, at));
}

/// The entries of a table, each at its place.
pub proof fn lemma_entries(w: World, table: u64, n: int)
    requires
        w.writable(table),
        0 <= n <= 3000,
    ensures
        entries(w, table, n).len() == n,
        forall|i: int| 0 <= i < n ==> #[trigger] entries(w, table, n)[i] == entry(w, table, i),
{
    assert forall|i: int| 0 <= i < n implies #[trigger] entries(w, table, n)[i] == entry(
        w,
        table,
        i,
    ) by {
        assert(plus(table, (8 * i) as u64) == (table + 8 * i) as u64);
    }
}

/// Whether a table holds a template of `count` layers: in its first entries as many
/// different pointers to complete layers, 3000 at most, all in private memory that can be
/// read and written.
pub open spec fn holds_template(w: World, table: u64, count: u32) -> bool {
    &&& w.writable(table)
    &&& forall|i: int|
        0 <= i < least(count as int, 3000) ==> w.writable(#[trigger] entry(w, table, i))
            && complete_at(w, entry(w, table, i))
    &&& forall|i: int, j: int|
        0 <= i < j < least(count as int, 3000) ==> #[trigger] entry(w, table, i)
            != #[trigger] entry(w, table, j)
}

/// Addresses that are all writable are kept, and more addresses come behind them.
proof fn lemma_writable_start(w: World, ptrs: Seq<u64>, n: int)
    requires
        0 <= n <= ptrs.len(),
        forall|i: int| 0 <= i < n ==> w.writable(#[trigger] ptrs[i]),
    ensures
        ptrs.take(n).is_prefix_of(writable_ones(w, ptrs)),
    decreases ptrs.len(),
{
    if n == ptrs.len() {
        assert(ptrs.take(n) =~= ptrs);
        if n > 0 {
            let front = ptrs.drop_last();
            assert forall|i: int| 0 <= i < n - 1 implies w.writable(#[trigger] front[i]) by {
                assert(front[i] == ptrs[i]);
            }
            lemma_writable_start(w, front, n - 1);
            assert(front.take(n - 1) =~= front);
            lemma_writable_shorter(w, front);
            assert(writable_ones(w, front) =~= front);
            assert(w.writable(ptrs[n - 1]));
            assert(writable_ones(w, ptrs) =~= ptrs);
        }
    } else {
        let front = ptrs.drop_last();
        assert forall|i: int| 0 <= i < n implies w.writable(#[trigger] front[i]) by {
            assert(front[i] == ptrs[i]);
        }
        lemma_writable_start(w, front, n);
        assert(front.take(n) =~= ptrs.take(n));
        let before = writable_ones(w, front);
        let all = writable_ones(w, ptrs);
        assert(before.is_prefix_of(all));
        assert(ptrs.take(n) =~= all.subrange(0, n)) by {
            assert(ptrs.take(n) =~= before.subrange(0, n));
        }
    }
}

proof fn lemma_writable_shorter(w: World, ptrs: Seq<u64>)
    ensures
        writable_ones(w, ptrs).len() <= ptrs.len(),
        forall|x: u64| #[trigger]
            writable_ones(w, ptrs).contains(x) ==> ptrs.contains(x) && w.writable(x),
    decreases ptrs.len(),
{
    if ptrs.len() > 0 {
        let front = ptrs.drop_last();
        lemma_writable_shorter(w, front);
        let all = writable_ones(w, ptrs);
        assert forall|x: u64| #[trigger] all.contains(x) implies ptrs.contains(x) && w.writable(
            x,
        ) by {
            let before = writable_ones(w, front);
            let k = all.index_of(x);
            if k < before.len() {
                assert(before[k] == x);
                assert(before.contains(x));
                let j = front.index_of(x);
                assert(ptrs[j] == x);
            } else {
                assert(ptrs[ptrs.len() - 1] == x);
            }
        }
    }
}

/// Different addresses that all look like a layer are all counted.
proof fn lemma_all_layers(w: World, p: GameProfile, ptrs: Seq<u64>)
    requires
        ptrs.no_duplicates(),
        forall|i: int| 0 <= i < ptrs.len() ==> look_score(look_at(w, p, #[trigger] ptrs[i])) >= 3,
    ensures
        layers_among(w, p, ptrs) == ptrs,
    decreases ptrs.len(),
{
    if ptrs.len() > 0 {
        let front = ptrs.drop_last();
        assert forall|i: int| 0 <= i < front.len() implies look_score(
            look_at(w, p, #[trigger] front[i]),
        ) >= 3 by {
            assert(front[i] == ptrs[i]);
        }
        lemma_all_layers(w, p, front);
        assert(look_score(look_at(w, p, ptrs[ptrs.len() - 1])) >= 3);
        assert(!front.contains(ptrs.last())) by {
            if front.contains(ptrs.last()) {
                let k = front.index_of(ptrs.last());
                assert(ptrs[k] == ptrs[ptrs.len() - 1]);
            }
        }
        assert(layers_among(w, p, ptrs) =~= ptrs);
    } else {
        assert(layers_among(w, p, ptrs) =~= ptrs);
    }
}

/// Addresses of complete layers are all complete.
proof fn lemma_all_strict(w: World, p: GameProfile, ptrs: Seq<u64>)
    requires
        forall|i: int| 0 <= i < ptrs.len() ==> strict_layer(layer_bytes(w, p, #[trigger] ptrs[i])),
    ensures
        strict_among(w, p, ptrs) == ptrs.len(),
    decreases ptrs.len(),
{
    if ptrs.len() > 0 {
        let front = ptrs.drop_last();
        assert forall|i: int| 0 <= i < front.len() implies strict_layer(
            layer_bytes(w, p, #[trigger] front[i]),
        ) by {
            assert(front[i] == ptrs[i]);
        }
        lemma_all_strict(w, p, front);
        assert(strict_layer(layer_bytes(w, p, ptrs[ptrs.len() - 1])));
    }
}

/// The score of addresses that all have at least four points.
proof fn lemma_high_score(w: World, p: GameProfile, ptrs: Seq<u64>)
    requires
        forall|i: int| 0 <= i < ptrs.len() ==> look_score(look_at(w, p, #[trigger] ptrs[i])) >= 4,
    ensures
        total_score(looks_at(w, p, ptrs)) >= 4 * ptrs.len(),
        layer_like(looks_at(w, p, ptrs)) == ptrs.len(),
    decreases ptrs.len(),
{
    if ptrs.len() > 0 {
        let front = ptrs.drop_last();
        assert forall|i: int| 0 <= i < front.len() implies look_score(
            look_at(w, p, #[trigger] front[i]),
        ) >= 4 by {
            assert(front[i] == ptrs[i]);
        }
        lemma_high_score(w, p, front);
        assert(looks_at(w, p, ptrs).drop_last() =~= looks_at(w, p, front));
        assert(look_score(look_at(w, p, ptrs[ptrs.len() - 1])) >= 4);
    }
}

/// A field that points to a table with the whole template gives a finding: the table is
/// found, all of the layers that are required count as complete, and the score is at
/// least five for each of the first entries.
pub proof fn law_whole_template_is_found(w: World, p: GameProfile, count: u32, field: u64)
    requires
        shared_layout(p),
        count >= 1,
        holds_template(w, w.u64_at(field), count),
    ensures
        table_found(w, p, count, field) matches Some(f) && {
            &&& f.table == w.u64_at(field)
            &&& f.validated == least(count as int, 3000)
            &&& f.score >= 5 * least(count as int, 64)
        },
{
    let table = w.u64_at(field);
    let n = least(count as int, 3000);
    let m = least(count as int, 64);
    let first = entries(w, table, m);
    let limit = entry_limit(count);
    assert(n <= limit <= 3000);
    let ptrs = entries(w, table, limit);
    lemma_entries(w, table, m);
    lemma_entries(w, table, n);
    lemma_entries(w, table, limit);
    let whole = entries(w, table, n);
    assert forall|i: int| 0 <= i < n implies w.writable(#[trigger] whole[i]) && look_score(
        look_at(w, p, whole[i]),
    ) >= 4 && strict_layer(layer_bytes(w, p, whole[i])) by {
        assert(whole[i] == entry(w, table, i));
        lemma_bytes_at(w, p, entry(w, table, i));
    }
    assert(whole.no_duplicates()) by {
        assert forall|i: int, j: int| 0 <= i < n && 0 <= j < n && i != j implies whole[i]
            != whole[j] by {
            if i < j {
                assert(entry(w, table, i) != entry(w, table, j));
            } else {
                assert(entry(w, table, j) != entry(w, table, i));
            }
        }
    }
    // The first entries score.
    assert(first =~= whole.take(m));
    assert forall|i: int| 0 <= i < m implies w.writable(#[trigger] first[i]) && look_score(
        look_at(w, p, first[i]),
    ) >= 4 by {
        assert(first[i] == whole[i]);
    }
    lemma_high_score(w, p, first);
    assert(first.no_duplicates());
    first.unique_seq_to_set();
    assert(table_score(first, looks_at(w, p, first)) >= 5 * m);
    // The entries cover the template.
    assert(whole =~= ptrs.take(n));
    assert forall|i: int| 0 <= i < n implies w.writable(#[trigger] ptrs[i]) by {
        assert(ptrs[i] == whole[i]);
    }
    lemma_writable_start(w, ptrs, n);
    let usable = writable_ones(w, ptrs);
    assert(usable.take(n) =~= whole);
    lemma_layers_prefix(w, p, usable, n);
    lemma_all_layers(w, p, whole);
    assert(layers_among(w, p, usable).take(n) =~= whole);
    assert(layers_counted(w, p, usable, count) =~= whole);
    lemma_all_strict(w, p, whole);
    assert(coverage(w, p, usable, count) == (true, n));
    assert(lesser(count as int, 64) == m);
}

/// No fewer entries of a table are looked at than layers are required, and never more than
/// 3000.
pub proof fn law_enough_entries_are_looked_at(count: u32)
    ensures
        least(count as int, 3000) <= entry_limit(count) <= 3000,
        count <= 2488 ==> entry_limit(count) >= count + 512,
        count <= 1500 ==> entry_limit(count) >= 2 * count,
{
}

/// What the first `m` entries of a table are worth: the points of each, and one more for
/// each that has at least three.
pub open spec fn worth(w: World, table: u64, m: int) -> int
    decreases m,
{
    if m <= 0 {
        0
    } else {
        worth(w, table, m - 1) + points(w, entry(w, table, m - 1)) + (if points(
            w,
            entry(w, table, m - 1),
        ) >= 3 {
            1int
        } else {
            0
        })
    }
}

/// How many of the first `m` entries of a table have at least three points.
pub open spec fn alike(w: World, table: u64, m: int) -> int
    decreases m,
{
    if m <= 0 {
        0
    } else {
        alike(w, table, m - 1) + (if points(w, entry(w, table, m - 1)) >= 3 {
            1int
        } else {
            0
        })
    }
}

/// The different addresses among the first `m` entries of a table.
pub open spec fn targets(w: World, table: u64, m: int) -> Set<u64> {
    Seq::new(m as nat, |i: int| entry(w, table, i)).to_set()
}

/// Whether an address is that of a layer among the first `n` entries of a table.
pub open spec fn listed(w: World, table: u64, n: int, at: u64) -> bool {
    w.writable(at) && points(w, at) >= 3 && exists|i: int|
        0 <= i < n && #[trigger] entry(w, table, i) == at
}

/// Whether `layers` are different layers that a table lists for a template of `count`
/// layers, as many as it has, with `complete` complete ones among them, enough of them.
pub open spec fn cover(
    w: World,
    table: u64,
    count: u32,
    layers: Seq<u64>,
    complete: int,
) -> bool {
    let n = least(count as int, 3000);
    &&& layers.len() == n
    &&& layers.no_duplicates()
    &&& forall|k: int|
        0 <= k < n ==> listed(w, table, least(3000, most(n + 512, 2 * n)), #[trigger] layers[k])
    &&& layers.filter(|at: u64| complete_at(w, at)).len() == complete
    &&& complete >= least(n, most(32, n / 4))
}

/// The complete ones among writable addresses.
proof fn lemma_strict_filter(w: World, p: GameProfile, ptrs: Seq<u64>)
    requires
        shared_layout(p),
        forall|i: int| 0 <= i < ptrs.len() ==> w.writable(#[trigger] ptrs[i]),
    ensures
        strict_among(w, p, ptrs) == ptrs.filter(|at: u64| complete_at(w, at)).len(),
    decreases ptrs.len(),
{
    reveal(Seq::filter);
    if ptrs.len() > 0 {
        let front = ptrs.drop_last();
        assert forall|i: int| 0 <= i < front.len() implies w.writable(#[trigger] front[i]) by {
            assert(front[i] == ptrs[i]);
        }
        lemma_strict_filter(w, p, front);
        assert(w.writable(ptrs[ptrs.len() - 1]));
        lemma_bytes_at(w, p, ptrs.last());
    }
}

proof fn lemma_worth(w: World, p: GameProfile, table: u64, m: int)
    requires
        shared_layout(p),
        w.writable(table),
        0 <= m <= 64,
        forall|i: int| 0 <= i < m ==> w.writable(#[trigger] entries(w, table, m)[i]),
    ensures
        total_score(looks_at(w, p, entries(w, table, m))) + layer_like(
            looks_at(w, p, entries(w, table, m)),
        ) == worth(w, table, m),
        layer_like(looks_at(w, p, entries(w, table, m))) == alike(w, table, m),
    decreases m,
{
    lemma_entries(w, table, m);
    if m > 0 {
        lemma_entries(w, table, m - 1);
        assert(entries(w, table, m).drop_last() =~= entries(w, table, m - 1));
        assert forall|i: int| 0 <= i < m - 1 implies w.writable(
            #[trigger] entries(w, table, m - 1)[i],
        ) by {
            assert(entries(w, table, m)[i] == entries(w, table, m - 1)[i]);
        }
        lemma_worth(w, p, table, m - 1);
        assert(looks_at(w, p, entries(w, table, m)).drop_last() =~= looks_at(
            w,
            p,
            entries(w, table, m - 1),
        ));
        assert(w.writable(entries(w, table, m)[m - 1]));
        lemma_bytes_at(w, p, entry(w, table, m - 1));
    }
}

/// What is found at a field is a table of the template. It is what the field points to,
/// in private memory that can be read and written, as are the first 64 entries or as many
/// as there are layers. Its score is what these entries are worth, and with sixteen or
/// more of them enough are different and enough look like a layer. Different layers of it
/// cover the template, and enough of them are complete.
pub proof fn law_found_table_holds_the_template(w: World, p: GameProfile, count: u32, field: u64)
    requires
        shared_layout(p),
    ensures
        table_found(w, p, count, field) matches Some(f) ==> {
            let m = least(count as int, 64);
            &&& count >= 1
            &&& f.table == w.u64_at(field)
            &&& w.writable(f.table)
            &&& forall|i: int| 0 <= i < m ==> w.writable(#[trigger] entry(w, f.table, i))
            &&& f.score == worth(w, f.table, m)
            &&& f.score > 0
            &&& m >= 16 ==> targets(w, f.table, m).len() >= most(8, 3 * m / 4)
            &&& m >= 16 ==> alike(w, f.table, m) >= most(8, m / 2)
            &&& exists|layers: Seq<u64>| #[trigger]
                cover(w, f.table, count, layers, f.validated)
        },
{
    if table_found(w, p, count, field) is Some {
        let f = table_found(w, p, count, field).unwrap();
        let table = f.table;
        let m = least(count as int, 64);
        let n = least(count as int, 3000);
        let first = entries(w, table, m);
        lemma_entries(w, table, m);
        assert(lesser(count as int, 64) == m);
        assert forall|i: int| 0 <= i < m implies w.writable(#[trigger] entry(w, table, i)) by {
            assert(first[i] == entry(w, table, i));
        }
        lemma_worth(w, p, table, m);
        assert(first =~= Seq::new(m as nat, |i: int| entry(w, table, i)));
        if count == 0 {
            assert(looks_at(w, p, first) =~= Seq::empty());
            assert(false);
        }
        let limit = least(3000, most(n + 512, 2 * n));
        assert(entry_limit(count) == limit);
        lemma_entries(w, table, limit);
        let ptrs = entries(w, table, limit);
        let usable = writable_ones(w, ptrs);
        let layers = layers_counted(w, p, usable, count);
        lemma_layers_among(w, p, usable);
        lemma_writable_shorter(w, ptrs);
        assert forall|k: int| 0 <= k < n implies listed(w, table, limit, #[trigger] layers[k]) by {
            let at = layers[k];
            assert(layers_among(w, p, usable)[k] == at);
            assert(layers_among(w, p, usable).contains(at));
            assert(usable.contains(at));
            assert(ptrs.contains(at));
            let i = ptrs.index_of(at);
            assert(entry(w, table, i) == at);
            lemma_bytes_at(w, p, at);
        }
        assert forall|k: int| 0 <= k < layers.len() implies w.writable(#[trigger] layers[k]) by {
            assert(listed(w, table, limit, layers[k]));
        }
        lemma_strict_filter(w, p, layers);
        assert(layers.no_duplicates());
        assert(cover(w, table, count, layers, f.validated));
    }
}

/// What is reported of a table is what its first eight entries point to: each sample has
/// the place of its entry, the pointer that stands there and how it looks, they ascend,
/// and an entry among the first eight with any point is reported.
pub proof fn law_samples_are_the_first_entries(
    w: World,
    p: GameProfile,
    ptrs: Seq<u64>,
    n: int,
)
    requires
        0 <= n <= ptrs.len(),
        n <= 64,
    ensures
        ({
            let s = samples_of(ptrs, looks_at(w, p, ptrs), n);
            &&& forall|k: int|
                0 <= k < s.len() ==> (#[trigger] s[k]).index < 8 && s[k].index < n
                    && s[k].pointer == ptrs[s[k].index as int] && s[k].look == look_at(
                    w,
                    p,
                    s[k].pointer,
                ) && look_score(s[k].look) > 0
            &&& forall|k: int, l: int|
                0 <= k < l < s.len() ==> (#[trigger] s[k]).index < (#[trigger] s[l]).index
            &&& forall|i: int|
                0 <= i < n && i < 8 && look_score(look_at(w, p, ptrs[i])) > 0 ==> #[trigger]
                    sampled(s, i)
        }),
    decreases n,
{
    if n > 0 {
        law_samples_are_the_first_entries(w, p, ptrs, n - 1);
        let looks = looks_at(w, p, ptrs);
        let before = samples_of(ptrs, looks, n - 1);
        let s = samples_of(ptrs, looks, n);
        assert forall|i: int|
            0 <= i < n && i < 8 && look_score(look_at(w, p, ptrs[i])) > 0 implies #[trigger]
            sampled(s, i) by {
            if i < n - 1 {
                assert(sampled(before, i));
                let k = choose|k: int| 0 <= k < before.len() && (#[trigger] before[k]).index == i;
                assert(s[k].index == i);
            } else {
                assert(s[before.len() as int].index == i);
            }
        }
    }
}

/// Whether entry `i` is among the samples.
pub open spec fn sampled(s: Seq<Sample>, i: int) -> bool {
    exists|k: int| 0 <= k < s.len() && (#[trigger] s[k]).index == i
}

} // verus!
