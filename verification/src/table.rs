//! Whether an address is that of a table of layers: what a first look at its
//! entries gives, and whether they cover a whole template.

use std::collections::HashSet;

use vstd::prelude::*;

use crate::device::{
    answered, asked, fits, offset_by, info_from, one_read, plus, read_from, read_one, Reply,
    Request, RequestView, Span, World,
};
use crate::layers::{
    bytes_from, layer_bytes, layer_look, layer_spans, look_at, look_score, push_layer_spans,
    score_layer_pointer, strict_layer, strict_layer_pointer, LayerLook,
};
use crate::profiles::GameProfile;
use crate::winmem::{
    is_private_writable, is_user_pointer, private_writable, read_u64, user_pointer, MemoryInfo,
};

verus! {

broadcast use vstd::std_specs::hash::group_hash_axioms;

/// The highest score that the first entries of a table can have.
pub const HIGHEST_SCORE: i64 = 384;

/// An entry of a table as it is reported.
#[derive(Clone, Copy, Debug, PartialEq, Eq)]
pub struct Sample {
    pub index: u32,
    pub pointer: u64,
    pub look: LayerLook,
}

/// What makes an address that of a table of layers.
#[derive(Debug)]
pub struct Finding {
    pub table: u64,
    pub score: i64,
    /// How many of the layers that cover the template are complete.
    pub validated: u32,
    pub samples: Vec<Sample>,
}

/// A finding, its samples as a sequence.
pub struct FindingView {
    pub table: u64,
    pub score: int,
    pub validated: int,
    pub samples: Seq<Sample>,
}

impl View for Finding {
    type V = FindingView;

    open spec fn view(&self) -> FindingView {
        FindingView {
            table: self.table,
            score: self.score as int,
            validated: self.validated as int,
            samples: self.samples@,
        }
    }
}

/// The smaller of two numbers.
pub open spec fn lesser(a: int, b: int) -> int {
    if a < b {
        a
    } else {
        b
    }
}

/// The greater of two numbers.
pub open spec fn greater(a: int, b: int) -> int {
    if a < b {
        b
    } else {
        a
    }
}

/// The spans of the first `n` entries of a table.
pub open spec fn entry_spans(table: u64, n: int) -> Seq<Span> {
    Seq::new(n as nat, |i: int| Span { address: plus(table, (8 * i) as u64), size: 8 })
}

/// The first `n` entries of a table.
pub open spec fn entries(w: World, table: u64, n: int) -> Seq<u64> {
    Seq::new(n as nat, |i: int| w.u64_at(plus(table, (8 * i) as u64)))
}

/// Whether every address lies in private memory that can be read and written.
pub open spec fn all_writable(w: World, ptrs: Seq<u64>) -> bool {
    forall|i: int| 0 <= i < ptrs.len() ==> w.writable(#[trigger] ptrs[i])
}

/// How the memory at each address looks as a layer.
pub open spec fn looks_at(w: World, p: GameProfile, ptrs: Seq<u64>) -> Seq<LayerLook> {
    Seq::new(ptrs.len(), |i: int| look_at(w, p, ptrs[i]))
}

/// The sum of the scores.
pub open spec fn total_score(looks: Seq<LayerLook>) -> int
    decreases looks.len(),
{
    if looks.len() == 0 {
        0
    } else {
        total_score(looks.drop_last()) + look_score(looks.last())
    }
}

/// How many look like a layer: in at least three fields.
pub open spec fn layer_like(looks: Seq<LayerLook>) -> int
    decreases looks.len(),
{
    if looks.len() == 0 {
        0
    } else {
        layer_like(looks.drop_last()) + (if look_score(looks.last()) >= 3 {
            1int
        } else {
            0
        })
    }
}

/// The score of a table by its first entries. With at least sixteen of them, three
/// quarters must be distinct and half must look like a layer, eight at least.
pub open spec fn table_score(ptrs: Seq<u64>, looks: Seq<LayerLook>) -> int {
    let n = ptrs.len() as int;
    if n >= 16 && (ptrs.to_set().len() < greater(8, n * 3 / 4) || layer_like(looks) < greater(
        8,
        n / 2,
    )) {
        0
    } else {
        total_score(looks) + layer_like(looks)
    }
}

/// The entries to report among the first `n`: those of the first eight that look
/// like a layer in any field.
pub open spec fn samples_of(ptrs: Seq<u64>, looks: Seq<LayerLook>, n: int) -> Seq<Sample>
    decreases n,
{
    if n <= 0 {
        Seq::empty()
    } else {
        let before = samples_of(ptrs, looks, n - 1);
        if look_score(looks[n - 1]) > 0 && n - 1 < 8 {
            before.push(
                Sample { index: (n - 1) as u32, pointer: ptrs[n - 1], look: looks[n - 1] },
            )
        } else {
            before
        }
    }
}

/// The addresses that lie in private memory that can be read and written.
pub open spec fn writable_ones(w: World, ptrs: Seq<u64>) -> Seq<u64>
    decreases ptrs.len(),
{
    if ptrs.len() == 0 {
        Seq::empty()
    } else {
        let before = writable_ones(w, ptrs.drop_last());
        if w.writable(ptrs.last()) {
            before.push(ptrs.last())
        } else {
            before
        }
    }
}

/// The addresses that look like a layer, each once.
pub open spec fn layers_among(w: World, p: GameProfile, ptrs: Seq<u64>) -> Seq<u64>
    decreases ptrs.len(),
{
    if ptrs.len() == 0 {
        Seq::empty()
    } else {
        let before = layers_among(w, p, ptrs.drop_last());
        if look_score(look_at(w, p, ptrs.last())) >= 3 && !before.contains(ptrs.last()) {
            before.push(ptrs.last())
        } else {
            before
        }
    }
}

/// How many of the addresses hold a complete layer.
pub open spec fn strict_among(w: World, p: GameProfile, ptrs: Seq<u64>) -> int
    decreases ptrs.len(),
{
    if ptrs.len() == 0 {
        0
    } else {
        strict_among(w, p, ptrs.drop_last()) + (if strict_layer(layer_bytes(w, p, ptrs.last())) {
            1int
        } else {
            0
        })
    }
}

/// How many distinct layers a table must hold for a template of `count` layers.
pub open spec fn required_layers(count: u32) -> int {
    lesser(count as int, 3000)
}

/// How many entries of a table are looked at for them.
pub open spec fn entry_limit(count: u32) -> int {
    lesser(3000, greater(required_layers(count) + 512, required_layers(count) * 2))
}

/// How many of the layers must be complete.
pub open spec fn required_strict(count: u32) -> int {
    lesser(required_layers(count), greater(32, required_layers(count) / 4))
}

/// How many layers are counted before it is decided: those that a table must hold, and
/// one at least.
pub open spec fn counted_layers(count: u32) -> int {
    greater(required_layers(count), 1)
}

/// The layers that are counted among the addresses: the first distinct ones.
pub open spec fn layers_counted(w: World, p: GameProfile, ptrs: Seq<u64>, count: u32) -> Seq<u64> {
    let layers = layers_among(w, p, ptrs);
    if layers.len() < counted_layers(count) {
        layers
    } else {
        layers.take(counted_layers(count))
    }
}

/// Whether the addresses cover a template, and how many of the layers that are counted
/// are complete.
pub open spec fn coverage(w: World, p: GameProfile, ptrs: Seq<u64>, count: u32) -> (bool, int) {
    let layers = layers_counted(w, p, ptrs, count);
    let strict = strict_among(w, p, layers);
    (layers.len() == counted_layers(count) && strict >= required_strict(count), strict)
}

/// What is found when the entries `ptrs` are to cover the template.
pub open spec fn found_by_cover(
    w: World,
    p: GameProfile,
    count: u32,
    table: u64,
    score: int,
    samples: Seq<Sample>,
    ptrs: Seq<u64>,
) -> Option<FindingView> {
    let (covered, validated) = coverage(w, p, ptrs, count);
    if covered {
        Some(FindingView { table, score, validated, samples })
    } else {
        None
    }
}

/// What is found when the first entries gave this score.
pub open spec fn found_by_score(
    w: World,
    p: GameProfile,
    count: u32,
    table: u64,
    score: int,
    samples: Seq<Sample>,
) -> Option<FindingView> {
    if score <= 0 {
        None
    } else {
        found_by_cover(
            w,
            p,
            count,
            table,
            score,
            samples,
            writable_ones(w, entries(w, table, entry_limit(count))),
        )
    }
}

/// What is found when the first entries of the table are `ptrs`.
pub open spec fn found_by_entries(
    w: World,
    p: GameProfile,
    count: u32,
    table: u64,
    ptrs: Seq<u64>,
) -> Option<FindingView> {
    if !all_writable(w, ptrs) {
        None
    } else {
        let looks = looks_at(w, p, ptrs);
        found_by_score(
            w,
            p,
            count,
            table,
            table_score(ptrs, looks),
            samples_of(ptrs, looks, ptrs.len() as int),
        )
    }
}

/// What is found when the field points to `table`.
pub open spec fn found_by_table(w: World, p: GameProfile, count: u32, table: u64) -> Option<
    FindingView,
> {
    if !user_pointer(table) || !w.writable(table) {
        None
    } else {
        found_by_entries(w, p, count, table, entries(w, table, lesser(count as int, 64)))
    }
}

/// What is found when the field at `field` is to point to a table of a template
/// with `count` layers.
pub open spec fn table_found(w: World, p: GameProfile, count: u32, field: u64) -> Option<
    FindingView,
> {
    found_by_table(w, p, count, w.u64_at(field))
}

/// The spans of the layers at the addresses, one layer after the other.
pub open spec fn spans_of(p: GameProfile, ptrs: Seq<u64>) -> Seq<Span>
    decreases ptrs.len(),
{
    if ptrs.len() == 0 {
        Seq::empty()
    } else {
        spans_of(p, ptrs.drop_last()) + layer_spans(p, ptrs.last())
    }
}

/// Five spans to a layer, those of layer `i` from five times `i` on.
proof fn lemma_spans_of(p: GameProfile, ptrs: Seq<u64>)
    ensures
        spans_of(p, ptrs).len() == 5 * ptrs.len(),
        forall|i: int, j: int|
            #![trigger layer_spans(p, ptrs[i])[j]]
            0 <= i < ptrs.len() && 0 <= j < 5 ==> spans_of(p, ptrs)[5 * i + j] == layer_spans(
                p,
                ptrs[i],
            )[j],
    decreases ptrs.len(),
{
    if ptrs.len() > 0 {
        let before = ptrs.drop_last();
        lemma_spans_of(p, before);
        assert forall|i: int, j: int|
            #![trigger layer_spans(p, ptrs[i])[j]]
            0 <= i < ptrs.len() && 0 <= j < 5 implies spans_of(p, ptrs)[5 * i + j] == layer_spans(
            p,
            ptrs[i],
        )[j] by {
            if i < before.len() {
                assert(before[i] == ptrs[i]);
                assert(spans_of(p, before)[5 * i + j] == layer_spans(p, before[i])[j]);
            }
        }
    }
}

/// What the blocks hold that the spans of layers were read as.
proof fn lemma_layers_read(w: World, p: GameProfile, ptrs: Seq<u64>, blocks: Seq<Vec<u8>>)
    requires
        blocks.len() == spans_of(p, ptrs).len(),
        forall|i: int|
            0 <= i < blocks.len() ==> (#[trigger] blocks[i])@ == (w.read)(
                spans_of(p, ptrs)[i].address,
                spans_of(p, ptrs)[i].size,
            ),
    ensures
        blocks.len() == 5 * ptrs.len(),
        forall|i: int|
            0 <= i < ptrs.len() ==> bytes_from(blocks, 5 * i) == layer_bytes(
                w,
                p,
                #[trigger] ptrs[i],
            ),
{
    lemma_spans_of(p, ptrs);
    assert forall|i: int| 0 <= i < ptrs.len() implies bytes_from(blocks, 5 * i) == layer_bytes(
        w,
        p,
        #[trigger] ptrs[i],
    ) by {
        let s = layer_spans(p, ptrs[i]);
        assert(spans_of(p, ptrs)[5 * i + 0] == s[0]);
        assert(spans_of(p, ptrs)[5 * i + 1] == s[1]);
        assert(spans_of(p, ptrs)[5 * i + 2] == s[2]);
        assert(spans_of(p, ptrs)[5 * i + 3] == s[3]);
        assert(spans_of(p, ptrs)[5 * i + 4] == s[4]);
    }
}

/// The spans of the first entries of a table.
fn make_entry_spans(table: u64, n: u32) -> (r: Vec<Span>)
    requires
        n <= 3000,
    ensures
        r@ == entry_spans(table, n as int),
{
    let mut out: Vec<Span> = Vec::new();
    for i in 0..n
        invariant
            n <= 3000,
            out@ =~= entry_spans(table, i as int),
    {
        out.push(Span { address: offset_by(table, 8 * (i as u64)), size: 8 });
    }
    out
}

/// The spans of the layers at the addresses.
fn make_layer_spans(p: &GameProfile, ptrs: &Vec<u64>) -> (r: Vec<Span>)
    ensures
        r@ == spans_of(*p, ptrs@),
{
    let mut out: Vec<Span> = Vec::new();
    assert(ptrs@.take(0) =~= Seq::<u64>::empty());
    for i in 0..ptrs.len()
        invariant
            out@ == spans_of(*p, ptrs@.take(i as int)),
    {
        push_layer_spans(&mut out, p, ptrs[i]);
        assert(ptrs@.take(i + 1).drop_last() =~= ptrs@.take(i as int));
    }
    assert(ptrs@.take(ptrs@.len() as int) =~= ptrs@);
    out
}

/// The numbers that blocks of eight bytes hold.
pub open spec fn numbers_in(blocks: Seq<Vec<u8>>) -> Seq<u64> {
    Seq::new(blocks.len(), |i: int| crate::winmem::number_read(blocks[i]@, 8) as u64)
}

/// Reads the numbers that blocks hold.
fn read_numbers(blocks: &Vec<Vec<u8>>) -> (r: Vec<u64>)
    ensures
        r@ == numbers_in(blocks@),
{
    let mut out: Vec<u64> = Vec::new();
    for i in 0..blocks.len()
        invariant
            out@ =~= numbers_in(blocks@).take(i as int),
    {
        out.push(read_u64(&blocks[i]));
    }
    assert(numbers_in(blocks@).take(blocks@.len() as int) =~= numbers_in(blocks@));
    out
}

/// Whether every address lies in private memory that can be read and written, by
/// what the system says of each.
fn check_writable(ptrs: &Vec<u64>, infos: &Vec<Option<MemoryInfo>>) -> (r: bool)
    requires
        ptrs@.len() == infos@.len(),
    ensures
        r <==> forall|i: int|
            0 <= i < ptrs@.len() ==> private_writable(#[trigger] ptrs@[i], infos@[i]),
{
    for i in 0..ptrs.len()
        invariant
            ptrs@.len() == infos@.len(),
            forall|j: int| 0 <= j < i ==> private_writable(#[trigger] ptrs@[j], infos@[j]),
    {
        if !is_private_writable(ptrs[i], &infos[i]) {
            return false;
        }
    }
    true
}

/// The addresses that lie in private memory that can be read and written, by what
/// the system says of each.
pub open spec fn writable_by(ptrs: Seq<u64>, infos: Seq<Option<MemoryInfo>>) -> Seq<u64>
    decreases ptrs.len(),
{
    if ptrs.len() == 0 {
        Seq::empty()
    } else {
        let before = writable_by(ptrs.drop_last(), infos);
        if private_writable(ptrs.last(), infos[ptrs.len() - 1]) {
            before.push(ptrs.last())
        } else {
            before
        }
    }
}

/// What the system says in the world `w` gives the addresses of `writable_ones`.
proof fn lemma_writable_by(w: World, ptrs: Seq<u64>, infos: Seq<Option<MemoryInfo>>)
    requires
        infos.len() >= ptrs.len(),
        forall|i: int| 0 <= i < ptrs.len() ==> #[trigger] infos[i] == (w.info)(ptrs[i]),
    ensures
        writable_by(ptrs, infos) == writable_ones(w, ptrs),
    decreases ptrs.len(),
{
    if ptrs.len() > 0 {
        lemma_writable_by(w, ptrs.drop_last(), infos);
        assert(infos[ptrs.len() - 1] == (w.info)(ptrs.last()));
    }
}

/// Keeps the addresses that lie in private memory that can be read and written.
fn keep_writable(ptrs: &Vec<u64>, infos: &Vec<Option<MemoryInfo>>) -> (r: Vec<u64>)
    requires
        ptrs@.len() == infos@.len(),
    ensures
        r@ == writable_by(ptrs@, infos@),
{
    let mut out: Vec<u64> = Vec::new();
    assert(ptrs@.take(0) =~= Seq::<u64>::empty());
    for i in 0..ptrs.len()
        invariant
            ptrs@.len() == infos@.len(),
            out@ == writable_by(ptrs@.take(i as int), infos@),
    {
        if is_private_writable(ptrs[i], &infos[i]) {
            out.push(ptrs[i]);
        }
        assert(ptrs@.take(i + 1).drop_last() =~= ptrs@.take(i as int));
    }
    assert(ptrs@.take(ptrs@.len() as int) =~= ptrs@);
    out
}

/// How many distinct numbers `v` holds.
fn count_distinct(v: &Vec<u64>) -> (r: usize)
    ensures
        r == v@.to_set().len(),
{
    let mut seen: HashSet<u64> = HashSet::new();
    assert(v@.take(0).to_set() =~= Set::<u64>::empty());
    for i in 0..v.len()
        invariant
            seen@ == v@.take(i as int).to_set(),
    {
        let ghost sofar = v@.take(i as int);
        assert(v@.take(i + 1) =~= sofar.push(v@[i as int]));
        proof {
            sofar.lemma_push_to_set_commute(v@[i as int]);
        }
        seen.insert(v[i]);
    }
    assert(v@.take(v@.len() as int) =~= v@);
    seen.len()
}

/// How the blocks look as layers, five blocks to a layer.
pub open spec fn looks_in(blocks: Seq<Vec<u8>>, n: int) -> Seq<LayerLook> {
    Seq::new(n as nat, |i: int| layer_look(bytes_from(blocks, 5 * i)))
}

/// The score of the table with the first entries `ptrs`, and the entries to report, none
/// where the score is zero; `blocks` are what the layers were read as.
fn score_table(ptrs: &Vec<u64>, blocks: &Vec<Vec<u8>>) -> (r: (i64, Vec<Sample>))
    requires
        ptrs@.len() <= 64,
        blocks@.len() == 5 * ptrs@.len(),
    ensures
        r.0 == table_score(ptrs@, looks_in(blocks@, ptrs@.len() as int)),
        0 <= r.0 <= HIGHEST_SCORE,
        r.1@ == (if r.0 == 0 {
            Seq::empty()
        } else {
            samples_of(ptrs@, looks_in(blocks@, ptrs@.len() as int), ptrs@.len() as int)
        }),
{
    let ghost looks = looks_in(blocks@, ptrs@.len() as int);
    let mut samples: Vec<Sample> = Vec::new();
    let mut total: i64 = 0;
    let mut like: i64 = 0;
    assert(looks.take(0) =~= Seq::<LayerLook>::empty());
    for i in 0..ptrs.len()
        invariant
            ptrs@.len() <= 64,
            blocks@.len() == 5 * ptrs@.len(),
            looks == looks_in(blocks@, ptrs@.len() as int),
            total == total_score(looks.take(i as int)),
            like == layer_like(looks.take(i as int)),
            0 <= total <= 5 * i,
            0 <= like <= i,
            samples@ == samples_of(ptrs@, looks, i as int),
            total == 0 ==> samples@.len() == 0,
    {
        let look = score_layer_pointer(blocks, 5 * i);
        let score = look.score();
        assert(looks.take(i + 1).drop_last() =~= looks.take(i as int));
        assert(looks.take(i + 1).last() == look);
        total = total + score;
        if score >= 3 {
            like = like + 1;
        }
        if score > 0 && i < 8 {
            samples.push(Sample { index: i as u32, pointer: ptrs[i], look });
        }
    }
    assert(looks.take(ptrs@.len() as int) =~= looks);
    let n: usize = ptrs.len();
    if n >= 16 {
        let three: usize = n * 3 / 4;
        let least: usize = if three < 8 {
            8
        } else {
            three
        };
        if count_distinct(ptrs) < least {
            return (0, Vec::new());
        }
        let half: i64 = (n / 2) as i64;
        let least_like: i64 = if half < 8 {
            8
        } else {
            half
        };
        if like < least_like {
            return (0, Vec::new());
        }
    }
    (total + like, samples)
}

/// The layers that some of the addresses give are the first that more give.
pub proof fn lemma_layers_prefix(w: World, p: GameProfile, ptrs: Seq<u64>, i: int)
    requires
        0 <= i <= ptrs.len(),
    ensures
        layers_among(w, p, ptrs.take(i)).is_prefix_of(layers_among(w, p, ptrs)),
    decreases ptrs.len() - i,
{
    if i < ptrs.len() {
        lemma_layers_prefix(w, p, ptrs, i + 1);
        assert(ptrs.take(i + 1).drop_last() =~= ptrs.take(i));
        assert(layers_among(w, p, ptrs.take(i)).is_prefix_of(layers_among(w, p, ptrs.take(i + 1))));
    } else {
        assert(ptrs.take(i) =~= ptrs);
    }
}

/// Whether the blocks are what the layers at the addresses are in the world `w`.
pub open spec fn agrees(w: World, p: GameProfile, ptrs: Seq<u64>, blocks: Seq<Vec<u8>>) -> bool {
    forall|i: int|
        0 <= i < ptrs.len() ==> bytes_from(blocks, 5 * i) == layer_bytes(w, p, #[trigger] ptrs[i])
}

/// Whether the addresses cover a template, and how many of the layers that are counted
/// are complete; `blocks` are what the layers were read as.
fn validate_table_layer_coverage(
    p: &GameProfile,
    ptrs: &Vec<u64>,
    blocks: &Vec<Vec<u8>>,
    count: u32,
) -> (r: (bool, u32))
    requires
        ptrs@.len() <= 3000,
        blocks@.len() == 5 * ptrs@.len(),
    ensures
        forall|w: World| #[trigger]
            agrees(w, *p, ptrs@, blocks@) ==> coverage(w, *p, ptrs@, count) == (r.0, r.1 as int),
{
    let required: u32 = if count < 3000 {
        count
    } else {
        3000
    };
    let quarter: u32 = required / 4;
    let many: u32 = if quarter > 32 {
        quarter
    } else {
        32
    };
    let least: u32 = if required < many {
        required
    } else {
        many
    };
    let mut seen: HashSet<u64> = HashSet::new();
    let mut valid: u32 = 0;
    let mut strict: u32 = 0;
    let ghost mut kept = Seq::<u64>::empty();
    assert(ptrs@.take(0) =~= Seq::<u64>::empty());
    assert(kept.to_set() =~= Set::<u64>::empty());
    for i in 0..ptrs.len()
        invariant
            ptrs@.len() <= 3000,
            blocks@.len() == 5 * ptrs@.len(),
            required == required_layers(count),
            least == required_strict(count),
            seen@ == kept.to_set(),
            valid == kept.len(),
            valid < counted_layers(count),
            valid <= i,
            strict <= i,
            forall|w: World| #[trigger]
                agrees(w, *p, ptrs@, blocks@) ==> {
                    &&& kept == layers_among(w, *p, ptrs@.take(i as int))
                    &&& strict == strict_among(w, *p, kept)
                },
    {
        let x = ptrs[i];
        assert(ptrs@.take(i + 1).drop_last() =~= ptrs@.take(i as int));
        assert(ptrs@.take(i + 1).last() == x);
        let look = score_layer_pointer(blocks, 5 * i);
        let score = look.score();
        let ghost before = kept;
        let known = seen.contains(&x);
        assert(known == before.contains(x));
        if score >= 3 && !known {
            seen.insert(x);
            valid = valid + 1;
            proof {
                kept = before.push(x);
                before.lemma_push_to_set_commute(x);
            }
            assert(kept.drop_last() =~= before);
            if strict_layer_pointer(blocks, 5 * i, &look) {
                strict = strict + 1;
            }
            assert forall|w: World| #[trigger] agrees(w, *p, ptrs@, blocks@) implies {
                &&& kept == layers_among(w, *p, ptrs@.take(i + 1))
                &&& strict == strict_among(w, *p, kept)
            } by {
                assert(bytes_from(blocks@, 5 * i) == layer_bytes(w, *p, ptrs@[i as int]));
            }
            if valid >= required {
                assert forall|w: World| #[trigger] agrees(w, *p, ptrs@, blocks@) implies coverage(
                    w,
                    *p,
                    ptrs@,
                    count,
                ) == (strict >= least, strict as int) by {
                    lemma_layers_prefix(w, *p, ptrs@, i + 1);
                    assert(layers_among(w, *p, ptrs@).take(counted_layers(count)) =~= kept);
                }
                return (strict >= least, strict);
            }
        } else {
            assert forall|w: World| #[trigger] agrees(w, *p, ptrs@, blocks@) implies {
                &&& kept == layers_among(w, *p, ptrs@.take(i + 1))
                &&& strict == strict_among(w, *p, kept)
            } by {
                assert(bytes_from(blocks@, 5 * i) == layer_bytes(w, *p, ptrs@[i as int]));
            }
        }
    }
    assert(ptrs@.take(ptrs@.len() as int) =~= ptrs@);
    (false, strict)
}

/// Where the check of a table has come to.
#[derive(Clone, Copy)]
enum CheckStage {
    Field,
    Table,
    Entries,
    EntryInfos,
    Layers,
    Cover,
    CoverInfos,
    CoverLayers,
    Rejected,
    Found,
}

/// The check whether a field points to a table of layers, one request at a time.
pub struct TableCheck {
    profile: GameProfile,
    count: u32,
    field: u64,
    stage: CheckStage,
    table: u64,
    pointers: Vec<u64>,
    score: i64,
    samples: Vec<Sample>,
    validated: u32,
}

impl TableCheck {
    /// The profile that the check goes by.
    pub closed spec fn game(self) -> GameProfile {
        self.profile
    }

    /// Whether what was gathered fits where the check has come to.
    pub closed spec fn wf(self) -> bool {
        match self.stage {
            CheckStage::EntryInfos => self.pointers@.len() <= 64,
            CheckStage::Layers => self.pointers@.len() <= 64,
            CheckStage::Cover => self.score <= HIGHEST_SCORE,
            CheckStage::CoverInfos => self.pointers@.len() <= 3000 && self.score <= HIGHEST_SCORE,
            CheckStage::CoverLayers => self.pointers@.len() <= 3000 && self.score <= HIGHEST_SCORE,
            CheckStage::Found => self.score <= HIGHEST_SCORE,
            _ => true,
        }
    }

    /// The next request; none when the check has ended.
    pub closed spec fn asks(self) -> Option<RequestView> {
        match self.stage {
            CheckStage::Field => Some(one_read(self.field, 8)),
            CheckStage::Table => Some(RequestView::Query(seq![self.table])),
            CheckStage::Entries => Some(
                RequestView::Read(entry_spans(self.table, lesser(self.count as int, 64))),
            ),
            CheckStage::EntryInfos => Some(RequestView::Query(self.pointers@)),
            CheckStage::Layers => Some(
                RequestView::Read(spans_of(self.profile, self.pointers@)),
            ),
            CheckStage::Cover => Some(
                RequestView::Read(entry_spans(self.table, entry_limit(self.count))),
            ),
            CheckStage::CoverInfos => Some(RequestView::Query(self.pointers@)),
            CheckStage::CoverLayers => Some(
                RequestView::Read(spans_of(self.profile, self.pointers@)),
            ),
            CheckStage::Rejected => None,
            CheckStage::Found => None,
        }
    }

    /// What is found where requests are answered from now on as in `w`.
    pub closed spec fn expects(self, w: World) -> Option<FindingView> {
        let p = self.profile;
        match self.stage {
            CheckStage::Field => table_found(w, p, self.count, self.field),
            CheckStage::Table => if !w.writable(self.table) {
                None
            } else {
                found_by_entries(
                    w,
                    p,
                    self.count,
                    self.table,
                    entries(w, self.table, lesser(self.count as int, 64)),
                )
            },
            CheckStage::Entries => found_by_entries(
                w,
                p,
                self.count,
                self.table,
                entries(w, self.table, lesser(self.count as int, 64)),
            ),
            CheckStage::EntryInfos => found_by_entries(
                w,
                p,
                self.count,
                self.table,
                self.pointers@,
            ),
            CheckStage::Layers => found_by_score(
                w,
                p,
                self.count,
                self.table,
                table_score(self.pointers@, looks_at(w, p, self.pointers@)),
                samples_of(
                    self.pointers@,
                    looks_at(w, p, self.pointers@),
                    self.pointers@.len() as int,
                ),
            ),
            CheckStage::Cover => found_by_cover(
                w,
                p,
                self.count,
                self.table,
                self.score as int,
                self.samples@,
                writable_ones(w, entries(w, self.table, entry_limit(self.count))),
            ),
            CheckStage::CoverInfos => found_by_cover(
                w,
                p,
                self.count,
                self.table,
                self.score as int,
                self.samples@,
                writable_ones(w, self.pointers@),
            ),
            CheckStage::CoverLayers => found_by_cover(
                w,
                p,
                self.count,
                self.table,
                self.score as int,
                self.samples@,
                self.pointers@,
            ),
            CheckStage::Rejected => None,
            CheckStage::Found => Some(
                FindingView {
                    table: self.table,
                    score: self.score as int,
                    validated: self.validated as int,
                    samples: self.samples@,
                },
            ),
        }
    }

    /// How far the check still has to go.
    pub closed spec fn measure(self) -> nat {
        match self.stage {
            CheckStage::Field => 8,
            CheckStage::Table => 7,
            CheckStage::Entries => 6,
            CheckStage::EntryInfos => 5,
            CheckStage::Layers => 4,
            CheckStage::Cover => 3,
            CheckStage::CoverInfos => 2,
            CheckStage::CoverLayers => 1,
            CheckStage::Rejected => 0,
            CheckStage::Found => 0,
        }
    }

    /// The check whether the field at `field` points to the table of a template
    /// with `count` layers.
    pub fn new(profile: GameProfile, count: u32, field: u64) -> (r: TableCheck)
        ensures
            r.wf(),
            r.asks() == Some(one_read(field, 8)),
            forall|w: World| #[trigger] r.expects(w) == table_found(w, profile, count, field),
    {
        TableCheck {
            profile,
            count,
            field,
            stage: CheckStage::Field,
            table: 0,
            pointers: Vec::new(),
            score: 0,
            samples: Vec::new(),
            validated: 0,
        }
    }

    /// The next request; none when the check has ended.
    pub fn request(&self) -> (r: Option<Request>)
        requires
            self.wf(),
        ensures
            asked(r) == self.asks(),
    {
        match self.stage {
            CheckStage::Field => Some(read_one(self.field, 8)),
            CheckStage::Table => {
                let v = vec![self.table];
                assert(v@ =~= seq![self.table]);
                Some(Request::Query(v))
            },
            CheckStage::Entries => {
                let n: u32 = if self.count < 64 {
                    self.count
                } else {
                    64
                };
                Some(Request::Read(make_entry_spans(self.table, n)))
            },
            CheckStage::EntryInfos => Some(Request::Query(copy_of(&self.pointers))),
            CheckStage::Layers => Some(
                Request::Read(make_layer_spans(&self.profile, &self.pointers)),
            ),
            CheckStage::Cover => Some(
                Request::Read(make_entry_spans(self.table, entries_to_scan(self.count))),
            ),
            CheckStage::CoverInfos => Some(Request::Query(copy_of(&self.pointers))),
            CheckStage::CoverLayers => Some(
                Request::Read(make_layer_spans(&self.profile, &self.pointers)),
            ),
            CheckStage::Rejected => None,
            CheckStage::Found => None,
        }
    }

    /// Takes what the system says of addresses.
    fn use_infos(&mut self, infos: &Vec<Option<MemoryInfo>>)
        requires
            old(self).wf(),
            old(self).asks() matches Some(RequestView::Query(q)) && q.len() == infos@.len(),
        ensures
            final(self).wf(),
            final(self).profile == old(self).profile,
            final(self).measure() < old(self).measure(),
            forall|w: World|
                info_from(w, old(self).asks().unwrap(), infos@) ==> #[trigger] final(
                    self).expects(w) == old(self).expects(w),
    {
        let ghost start = *self;
        match self.stage {
            CheckStage::Table => {
                if is_private_writable(self.table, &infos[0]) {
                    self.stage = CheckStage::Entries;
                } else {
                    self.stage = CheckStage::Rejected;
                }
            },
            CheckStage::EntryInfos => {
                if check_writable(&self.pointers, infos) {
                    self.stage = CheckStage::Layers;
                } else {
                    self.stage = CheckStage::Rejected;
                }
            },
            CheckStage::CoverInfos => {
                self.pointers = keep_writable(&self.pointers, infos);
                self.stage = CheckStage::CoverLayers;
                assert forall|w: World|
                    info_from(w, start.asks().unwrap(), infos@) implies #[trigger] self.expects(w)
                    == start.expects(w) by {
                    lemma_writable_by(w, start.pointers@, infos@);
                }
                proof {
                    lemma_writable_fewer(start.pointers@, infos@);
                }
            },
            _ => {},
        }
    }

    /// Takes bytes that were read.
    fn use_blocks(&mut self, blocks: &Vec<Vec<u8>>)
        requires
            old(self).wf(),
            old(self).asks() matches Some(RequestView::Read(s)) && s.len() == blocks@.len(),
        ensures
            final(self).wf(),
            final(self).profile == old(self).profile,
            final(self).measure() < old(self).measure(),
            forall|w: World|
                read_from(w, old(self).asks().unwrap(), blocks@) ==> #[trigger] final(
                    self).expects(w) == old(self).expects(w),
    {
        let ghost start = *self;
        match self.stage {
            CheckStage::Field => {
                self.table = read_u64(&blocks[0]);
                if is_user_pointer(self.table) {
                    self.stage = CheckStage::Table;
                } else {
                    self.stage = CheckStage::Rejected;
                }
            },
            CheckStage::Entries => {
                self.pointers = read_numbers(blocks);
                self.stage = CheckStage::EntryInfos;
                assert forall|w: World|
                    read_from(w, start.asks().unwrap(), blocks@) implies #[trigger] self.expects(w)
                    == start.expects(w) by {
                    assert(self.pointers@ =~= entries(
                        w,
                        start.table,
                        lesser(start.count as int, 64),
                    ));
                }
            },
            CheckStage::Layers => {
                proof {
                    lemma_spans_of(self.profile, self.pointers@);
                }
                let (score, samples) = score_table(&self.pointers, blocks);
                self.score = score;
                self.samples = samples;
                self.stage = if score <= 0 {
                    CheckStage::Rejected
                } else {
                    CheckStage::Cover
                };
                assert forall|w: World|
                    read_from(w, start.asks().unwrap(), blocks@) implies #[trigger] self.expects(w)
                    == start.expects(w) by {
                    lemma_layers_read(w, start.profile, start.pointers@, blocks@);
                    assert(looks_in(blocks@, start.pointers@.len() as int) =~= looks_at(
                        w,
                        start.profile,
                        start.pointers@,
                    ));
                }
            },
            CheckStage::Cover => {
                self.pointers = read_numbers(blocks);
                self.stage = CheckStage::CoverInfos;
                assert forall|w: World|
                    read_from(w, start.asks().unwrap(), blocks@) implies #[trigger] self.expects(w)
                    == start.expects(w) by {
                    assert(self.pointers@ =~= entries(w, start.table, entry_limit(start.count)));
                }
            },
            CheckStage::CoverLayers => {
                proof {
                    lemma_spans_of(self.profile, self.pointers@);
                }
                let (covered, validated) = validate_table_layer_coverage(
                    &self.profile,
                    &self.pointers,
                    blocks,
                    self.count,
                );
                self.validated = validated;
                self.stage = if covered {
                    CheckStage::Found
                } else {
                    CheckStage::Rejected
                };
                assert forall|w: World|
                    read_from(w, start.asks().unwrap(), blocks@) implies #[trigger] self.expects(w)
                    == start.expects(w) by {
                    lemma_layers_read(w, start.profile, start.pointers@, blocks@);
                    assert(agrees(w, start.profile, start.pointers@, blocks@));
                }
            },
            _ => {},
        }
    }

    /// Takes the answer to the request.
    pub fn answer(&mut self, reply: Reply)
        requires
            old(self).wf(),
            old(self).asks() matches Some(request) && fits(request, reply),
        ensures
            final(self).wf(),
            final(self).measure() < old(self).measure(),
            forall|w: World|
                answered(w, old(self).asks().unwrap(), reply) ==> #[trigger] final(self).expects(w)
                    == old(self).expects(w),
    {
        match &reply {
            Reply::Blocks(blocks) => {
                self.use_blocks(blocks);
            },
            Reply::Infos(infos) => {
                self.use_infos(infos);
            },
            _ => {},
        }
    }

    /// A check asks for no write.
    pub proof fn law_check_only_reads(self)
        ensures
            self.asks() matches Some(request) ==> !(request is Write),
    {
    }

    /// Whether the check has ended.
    pub fn ended(&self) -> (r: bool)
        ensures
            r == (self.asks() is None),
    {
        match self.stage {
            CheckStage::Rejected => true,
            CheckStage::Found => true,
            _ => false,
        }
    }

    /// What was found.
    pub fn finding(&self) -> (r: Option<Finding>)
        requires
            self.wf(),
            self.asks() is None,
        ensures
            r matches Some(f) ==> f.score <= HIGHEST_SCORE,
            forall|w: World| #[trigger]
                self.expects(w) == (match r {
                    Some(f) => Some(f@),
                    None => None,
                }),
    {
        match self.stage {
            CheckStage::Found => {
                let mut samples: Vec<Sample> = Vec::new();
                for i in 0..self.samples.len()
                    invariant
                        samples@ == self.samples@.take(i as int),
                {
                    samples.push(self.samples[i]);
                    assert(samples@ =~= self.samples@.take(i + 1));
                }
                assert(self.samples@.take(self.samples@.len() as int) =~= self.samples@);
                Some(
                    Finding {
                        table: self.table,
                        score: self.score,
                        validated: self.validated,
                        samples,
                    },
                )
            },
            _ => None,
        }
    }
}

/// A copy of numbers.
fn copy_of(v: &Vec<u64>) -> (r: Vec<u64>)
    ensures
        r@ == v@,
{
    let mut out: Vec<u64> = Vec::new();
    for i in 0..v.len()
        invariant
            out@ =~= v@.take(i as int),
    {
        out.push(v[i]);
    }
    assert(v@.take(v@.len() as int) =~= v@);
    out
}

/// How many entries of a table are looked at.
fn entries_to_scan(count: u32) -> (r: u32)
    ensures
        r == entry_limit(count),
        r <= 3000,
{
    let required: u32 = if count < 3000 {
        count
    } else {
        3000
    };
    let more: u32 = if required + 512 < required * 2 {
        required * 2
    } else {
        required + 512
    };
    if more < 3000 {
        more
    } else {
        3000
    }
}

/// No address is added.
proof fn lemma_writable_fewer(ptrs: Seq<u64>, infos: Seq<Option<MemoryInfo>>)
    ensures
        writable_by(ptrs, infos).len() <= ptrs.len(),
    decreases ptrs.len(),
{
    if ptrs.len() > 0 {
        lemma_writable_fewer(ptrs.drop_last(), infos);
    }
}

/// What is found at a field holds: the field points to private memory that can be
/// read and written, so do the first entries, which give the score and what is reported,
/// and the distinct layers among the entries cover the template.
pub proof fn law_found_table_covers_template(w: World, p: GameProfile, count: u32, field: u64)
    ensures
        table_found(w, p, count, field) matches Some(f) ==> {
            let first = entries(w, f.table, lesser(count as int, 64));
            let ptrs = writable_ones(w, entries(w, f.table, entry_limit(count)));
            &&& f.table == w.u64_at(field)
            &&& w.writable(f.table)
            &&& all_writable(w, first)
            &&& f.score == table_score(first, looks_at(w, p, first))
            &&& f.score > 0
            &&& f.samples == samples_of(first, looks_at(w, p, first), first.len() as int)
            &&& coverage(w, p, ptrs, count) == (true, f.validated)
            &&& layers_among(w, p, ptrs).len() >= required_layers(count)
            &&& f.validated >= required_strict(count)
        },
{
}

/// Each layer that looks like one counts once, in the order of the addresses.
pub proof fn lemma_layers_among(w: World, p: GameProfile, ptrs: Seq<u64>)
    ensures
        layers_among(w, p, ptrs).no_duplicates(),
        forall|x: u64| #[trigger]
            layers_among(w, p, ptrs).contains(x) <==> ptrs.contains(x) && look_score(
                look_at(w, p, x),
            ) >= 3,
    decreases ptrs.len(),
{
    let layers = layers_among(w, p, ptrs);
    if ptrs.len() > 0 {
        let last = ptrs.last();
        let front = ptrs.drop_last();
        let before = layers_among(w, p, front);
        lemma_layers_among(w, p, front);
        assert(ptrs =~= front.push(last));
        assert forall|x: u64| #[trigger] layers.contains(x) <==> ptrs.contains(x) && look_score(
            look_at(w, p, x),
        ) >= 3 by {
            assert(ptrs.contains(x) <==> front.contains(x) || x == last) by {
                if front.contains(x) {
                    assert(ptrs[front.index_of(x)] == x);
                }
                assert(ptrs[ptrs.len() - 1] == last);
                if ptrs.contains(x) && x != last {
                    assert(front[ptrs.index_of(x)] == x);
                }
            }
            assert(before.push(last).contains(x) <==> before.contains(x) || x == last) by {
                let more = before.push(last);
                if before.contains(x) {
                    assert(more[before.index_of(x)] == x);
                }
                assert(more[before.len() as int] == last);
                if more.contains(x) && x != last {
                    assert(before[more.index_of(x)] == x);
                }
            }
        }
    }
}

/// No more layers are complete than there are.
pub proof fn lemma_strict_among(w: World, p: GameProfile, ptrs: Seq<u64>)
    ensures
        0 <= strict_among(w, p, ptrs) <= ptrs.len(),
    decreases ptrs.len(),
{
    if ptrs.len() > 0 {
        lemma_strict_among(w, p, ptrs.drop_last());
    }
}

/// A template is covered where enough distinct addresses look like a layer and enough of
/// those that are counted are complete. An address that is repeated counts once, and no
/// more are counted as complete than the template has layers, one at least.
pub proof fn law_coverage_counts_distinct_layers(
    w: World,
    p: GameProfile,
    ptrs: Seq<u64>,
    count: u32,
)
    ensures
        layers_among(w, p, ptrs).no_duplicates(),
        forall|x: u64| #[trigger]
            layers_among(w, p, ptrs).contains(x) <==> ptrs.contains(x) && look_score(
                look_at(w, p, x),
            ) >= 3,
        layers_counted(w, p, ptrs, count).is_prefix_of(layers_among(w, p, ptrs)),
        coverage(w, p, ptrs, count).0 <==> {
            &&& layers_among(w, p, ptrs).len() >= counted_layers(count)
            &&& coverage(w, p, ptrs, count).1 >= required_strict(count)
        },
        0 <= coverage(w, p, ptrs, count).1 <= counted_layers(count),
{
    lemma_layers_among(w, p, ptrs);
    lemma_strict_among(w, p, layers_counted(w, p, ptrs, count));
}

} // verus!
