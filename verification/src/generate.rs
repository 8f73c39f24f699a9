//! The generator: its settings, the work it hands to the graphics processor, and what
//! it says.

use vstd::prelude::*;
use vstd::string::*;

use crate::text::{
    ascii_lowered, chars_of, decimal, find_char, first_at, lemma_first_at, lemma_split_joined,
    parse_unsigned, pieces, push_decimal,
    same_chars, same_ignoring_case, same_text, slice_chars, split, split_chars, trim, trimmed,
    unsigned_value,
};

verus! {

/// How an image is turned into shapes.
#[derive(Clone, Debug)]
pub struct Profile {
    pub max_resolution: u32,
    pub random_samples: usize,
    pub mutated_samples: usize,
    pub posterize_levels: u32,
    pub stop_at: usize,
    pub save_every: usize,
    pub save_at: Vec<usize>,
    /// Whether only the opaque part of the image gets shapes, and no background.
    pub transparent_bg: bool,
    /// How opaque the shapes are, from 1 to 255.
    pub shape_alpha: u8,
    /// 0 for ellipses, 1 for rectangles, 2 for both.
    pub shape_mode: u8,
}

/// A profile, its save points as a sequence.
pub struct ProfileView {
    pub max_resolution: u32,
    pub random_samples: usize,
    pub mutated_samples: usize,
    pub posterize_levels: u32,
    pub stop_at: usize,
    pub save_every: usize,
    pub save_at: Seq<usize>,
    pub transparent_bg: bool,
    pub shape_alpha: u8,
    pub shape_mode: u8,
}

impl View for Profile {
    type V = ProfileView;

    open spec fn view(&self) -> ProfileView {
        ProfileView {
            max_resolution: self.max_resolution,
            random_samples: self.random_samples,
            mutated_samples: self.mutated_samples,
            posterize_levels: self.posterize_levels,
            stop_at: self.stop_at,
            save_every: self.save_every,
            save_at: self.save_at@,
            transparent_bg: self.transparent_bg,
            shape_alpha: self.shape_alpha,
            shape_mode: self.shape_mode,
        }
    }
}

/// What the settings of a generator keep to: at least one sample, one shape and one
/// shape between two save points, two to 256 levels of colour, and shapes that
/// show.
pub open spec fn usable(p: ProfileView) -> bool {
    &&& p.random_samples >= 1
    &&& p.stop_at >= 1
    &&& p.save_every >= 1
    &&& 2 <= p.posterize_levels <= 256
    &&& p.shape_alpha >= 1
    &&& p.shape_mode <= 2
}

/// The value that a line of a settings file gives the key `key`, where it does: what
/// follows the first equals sign, when what stands before it is the key, whatever
/// the case of its letters. A line that starts with `#` gives nothing.
pub open spec fn line_value(line: Seq<char>, key: Seq<char>) -> Option<Seq<char>> {
    let l = trimmed(line);
    let at = first_at(l, '=');
    if l.len() == 0 || l[0] == '#' || at >= l.len() {
        None
    } else if ascii_lowered(trimmed(l.subrange(0, at))) == ascii_lowered(key) {
        Some(trimmed(l.subrange(at + 1, l.len() as int)))
    } else {
        None
    }
}

/// The value of the key `key` in lines: what the first of them gives that does.
pub open spec fn value_in(lines: Seq<Seq<char>>, key: Seq<char>) -> Option<Seq<char>>
    decreases lines.len(),
{
    if lines.len() == 0 {
        None
    } else {
        match line_value(lines[0], key) {
            Some(v) => Some(v),
            None => value_in(lines.drop_first(), key),
        }
    }
}

/// The whole number that a value writes, where it writes one.
pub open spec fn size_value(v: Seq<char>) -> Option<nat> {
    unsigned_value(v, 10, usize::MAX as nat)
}

/// The whole number of the key `key` in lines; `default` where there is none.
pub open spec fn number_in(lines: Seq<Seq<char>>, key: Seq<char>, default: nat) -> nat {
    match value_in(lines, key) {
        Some(v) => match size_value(v) {
            Some(n) => n,
            None => default,
        },
        None => default,
    }
}

/// The whole numbers among pieces of text, in their order.
pub open spec fn numbers_among(parts: Seq<Seq<char>>) -> Seq<usize>
    decreases parts.len(),
{
    if parts.len() == 0 {
        Seq::empty()
    } else {
        let before = numbers_among(parts.drop_last());
        match size_value(trimmed(parts.last())) {
            Some(n) => before.push(n as usize),
            None => before,
        }
    }
}

/// At least one.
pub open spec fn at_least_one(n: nat) -> usize {
    if n < 1 {
        1
    } else {
        n as usize
    }
}

/// Between two and 256.
pub open spec fn levels(n: nat) -> u32 {
    if n < 2 {
        2
    } else if n > 256 {
        256
    } else {
        n as u32
    }
}

/// The lowest 32 bits.
pub open spec fn low_bits(n: nat) -> u32 {
    (n % 0x1_0000_0000) as u32
}

/// The settings that the lines of a settings file hold.
pub open spec fn settings_in(lines: Seq<Seq<char>>) -> ProfileView {
    ProfileView {
        max_resolution: low_bits(number_in(lines, "maxResolution"@, 1000)),
        random_samples: at_least_one(number_in(lines, "randomSamples"@, 1500)),
        mutated_samples: number_in(lines, "mutatedSamples"@, 600) as usize,
        posterize_levels: levels(number_in(lines, "posterizeLevels"@, 256)),
        stop_at: at_least_one(number_in(lines, "stopAt"@, 3000)),
        save_every: at_least_one(number_in(lines, "saveEvery"@, 50)),
        save_at: match value_in(lines, "saveAt"@) {
            Some(v) => numbers_among(split(v, ',')),
            None => Seq::empty(),
        },
        transparent_bg: false,
        shape_alpha: 255,
        shape_mode: 0,
    }
}

/// The settings that a settings file holds.
pub open spec fn profile_in(text: Seq<char>) -> ProfileView {
    settings_in(split(text, '\n'))
}

/// Whether a line is blank or a comment.
pub open spec fn idle_line(line: Seq<char>) -> bool {
    trimmed(line).len() == 0 || trimmed(line)[0] == '#'
}

/// Whether every key that a line gives a value has one already in `before`.
pub open spec fn repeats(before: Seq<Seq<char>>, line: Seq<char>) -> bool {
    forall|key: Seq<char>| #[trigger]
        line_value(line, key) is Some ==> value_in(before, key) is Some
}

/// What the first lines give a key, or else those behind them.
proof fn lemma_value_in_both(a: Seq<Seq<char>>, b: Seq<Seq<char>>, key: Seq<char>)
    ensures
        value_in(a + b, key) == (match value_in(a, key) {
            Some(v) => Some(v),
            None => value_in(b, key),
        }),
    decreases a.len(),
{
    if a.len() == 0 {
        assert(a + b =~= b);
    } else {
        assert((a + b).drop_first() =~= a.drop_first() + b);
        assert((a + b)[0] == a[0]);
        lemma_value_in_both(a.drop_first(), b, key);
    }
}

/// A blank line, a comment, or a line that repeats keys of the lines before it changes
/// nothing in the settings.
pub proof fn law_idle_lines_change_nothing(
    before: Seq<Seq<char>>,
    line: Seq<char>,
    after: Seq<Seq<char>>,
)
    requires
        idle_line(line) || repeats(before, line),
    ensures
        settings_in(before + seq![line] + after) == settings_in(before + after),
{
    assert forall|key: Seq<char>|
        value_in(before + seq![line] + after, key) == #[trigger] value_in(before + after, key) by {
        lemma_value_in_both(before + seq![line], after, key);
        lemma_value_in_both(before, seq![line], key);
        lemma_value_in_both(before, after, key);
        reveal_with_fuel(value_in, 2);
        assert(seq![line].drop_first() =~= Seq::<Seq<char>>::empty());
        assert(seq![line][0] == line);
        assert(value_in(seq![line], key) == line_value(line, key));
    }
}

/// The same in the text of a settings file: where such a line is put between two others
/// the settings stay what they were.
pub proof fn law_idle_text_changes_nothing(before: Seq<char>, line: Seq<char>, after: Seq<char>)
    requires
        !line.contains('\n'),
        idle_line(line) || repeats(split(before, '\n'), line),
    ensures
        profile_in(before + seq!['\n'] + line + seq!['\n'] + after) == profile_in(
            before + seq!['\n'] + after,
        ),
{
    let rest = line + seq!['\n'] + after;
    assert(before + seq!['\n'] + line + seq!['\n'] + after =~= before + seq!['\n'] + rest);
    lemma_split_joined(before, rest, '\n');
    lemma_split_joined(line, after, '\n');
    lemma_split_joined(before, after, '\n');
    lemma_first_at(line, '\n');
    assert(split(line, '\n') =~= seq![line]);
    let b = split(before, '\n');
    let a = split(after, '\n');
    assert(split(before + seq!['\n'] + rest, '\n') =~= b + seq![line] + a);
    law_idle_lines_change_nothing(b, line, a);
}

/// The value that a line gives the key.
fn read_line(line: &Vec<char>, key: &Vec<char>) -> (r: Option<Vec<char>>)
    ensures
        match r {
            Some(v) => line_value(line@, key@) == Some(v@),
            None => line_value(line@, key@) is None,
        },
{
    let l = trim(line);
    if l.len() == 0 || l[0] == '#' {
        return None;
    }
    let at = find_char(&l, '=');
    if at >= l.len() {
        return None;
    }
    let name = trim(&slice_chars(&l, 0, at));
    if same_ignoring_case(&name, key) {
        Some(trim(&slice_chars(&l, at + 1, l.len())))
    } else {
        None
    }
}

/// The value of the key in lines.
fn find_setting(lines: &Vec<Vec<char>>, key: &str) -> (r: Option<Vec<char>>)
    ensures
        match r {
            Some(v) => value_in(pieces(lines@), key@) == Some(v@),
            None => value_in(pieces(lines@), key@) is None,
        },
{
    let name = chars_of(key);
    let ghost all = pieces(lines@);
    assert(all.skip(0) =~= all);
    for i in 0..lines.len()
        invariant
            all == pieces(lines@),
            name@ == key@,
            value_in(all, key@) == value_in(all.skip(i as int), key@),
    {
        assert(all.skip(i as int)[0] == lines@[i as int]@);
        assert(all.skip(i as int).drop_first() =~= all.skip(i + 1));
        if let Some(v) = read_line(&lines[i], &name) {
            return Some(v);
        }
    }
    assert(all.skip(lines@.len() as int) =~= Seq::<Seq<char>>::empty());
    None
}

/// The whole number that a value writes.
fn read_size(v: &Vec<char>) -> (r: Option<usize>)
    ensures
        match r {
            Some(n) => size_value(v@) == Some(n as nat),
            None => size_value(v@) is None,
        },
{
    match parse_unsigned(v, 10, usize::MAX as u64) {
        Some(n) => Some(n as usize),
        None => None,
    }
}

/// The whole number of a key.
fn number_of(lines: &Vec<Vec<char>>, key: &str, default: usize) -> (r: usize)
    ensures
        r == (match value_in(pieces(lines@), key@) {
            Some(v) => match size_value(v) {
                Some(n) => n,
                None => default as nat,
            },
            None => default as nat,
        }),
{
    match find_setting(lines, key) {
        Some(v) => match read_size(&v) {
            Some(n) => n,
            None => default,
        },
        None => default,
    }
}

/// The whole numbers among pieces of text.
fn collect_numbers(parts: &Vec<Vec<char>>) -> (r: Vec<usize>)
    ensures
        r@ == numbers_among(pieces(parts@)),
{
    let ghost all = pieces(parts@);
    let mut out: Vec<usize> = Vec::new();
    assert(all.take(0) =~= Seq::<Seq<char>>::empty());
    for i in 0..parts.len()
        invariant
            all == pieces(parts@),
            out@ == numbers_among(all.take(i as int)),
    {
        assert(all.take(i + 1).drop_last() =~= all.take(i as int));
        assert(all.take(i + 1).last() == parts@[i as int]@);
        if let Some(n) = read_size(&trim(&parts[i])) {
            out.push(n);
        }
    }
    assert(all.take(parts@.len() as int) =~= all);
    out
}

/// Reads the settings from the text of a settings file.
pub fn parse_profile(text: &str) -> (r: Profile)
    ensures
        r@ == profile_in(text@),
        usable(r@),
{
    let lines = split_chars(&chars_of(text), '\n');
    let save_at = match find_setting(&lines, "saveAt") {
        Some(v) => collect_numbers(&split_chars(&v, ',')),
        None => Vec::new(),
    };
    Profile {
        max_resolution: truncate(number_of(&lines, "maxResolution", 1000)),
        random_samples: raise(number_of(&lines, "randomSamples", 1500)),
        mutated_samples: number_of(&lines, "mutatedSamples", 600),
        posterize_levels: hold_levels(number_of(&lines, "posterizeLevels", 256)),
        stop_at: raise(number_of(&lines, "stopAt", 3000)),
        save_every: raise(number_of(&lines, "saveEvery", 50)),
        save_at,
        transparent_bg: false,
        shape_alpha: 255,
        shape_mode: 0,
    }
}

/// The lowest 32 bits.
pub fn truncate(n: usize) -> (r: u32)
    ensures
        r == low_bits(n as nat),
{
    (n as u64 % 0x1_0000_0000) as u32
}

/// At least one.
pub fn raise(n: usize) -> (r: usize)
    ensures
        r == at_least_one(n as nat),
{
    if n < 1 {
        1
    } else {
        n
    }
}

/// Between two and 256.
pub fn hold_levels(n: usize) -> (r: u32)
    ensures
        r == levels(n as nat),
{
    if n < 2 {
        2
    } else if n > 256 {
        256
    } else {
        n as u32
    }
}

/// Whether a text comes before another: by their first difference, or as its start.
pub open spec fn comes_before(a: Seq<char>, b: Seq<char>) -> bool
    decreases a.len(),
{
    if b.len() == 0 {
        false
    } else if a.len() == 0 {
        true
    } else if a[0] != b[0] {
        a[0] < b[0]
    } else {
        comes_before(a.drop_first(), b.drop_first())
    }
}

/// Decides `comes_before`.
fn is_before(a: &Vec<char>, b: &Vec<char>) -> (r: bool)
    ensures
        r == comes_before(a@, b@),
{
    let mut i: usize = 0;
    assert(a@.skip(0) =~= a@);
    assert(b@.skip(0) =~= b@);
    while i < a.len() && i < b.len()
        invariant
            i <= a@.len(),
            i <= b@.len(),
            comes_before(a@, b@) == comes_before(a@.skip(i as int), b@.skip(i as int)),
        decreases a@.len() - i,
    {
        assert(a@.skip(i as int).drop_first() =~= a@.skip(i + 1));
        assert(b@.skip(i as int).drop_first() =~= b@.skip(i + 1));
        if a[i] != b[i] {
            return a[i] < b[i];
        }
        i = i + 1;
    }
    i < b.len()
}

/// Whether a file is a settings file, by its name.
pub open spec fn settings_name(name: Seq<char>) -> bool {
    name.len() > 4 && name.subrange(name.len() - 4, name.len() as int) == ".ini"@
}

/// The names `s`, in order, with `x` in its place.
pub open spec fn with_name(s: Seq<Seq<char>>, x: Seq<char>) -> Seq<Seq<char>>
    decreases s.len(),
{
    if s.len() == 0 || !comes_before(x, s.last()) {
        s.push(x)
    } else {
        with_name(s.drop_last(), x).push(s.last())
    }
}

/// The settings files among names, in order.
pub open spec fn settings_among(names: Seq<Seq<char>>) -> Seq<Seq<char>>
    decreases names.len(),
{
    if names.len() == 0 {
        Seq::empty()
    } else {
        let before = settings_among(names.drop_last());
        if settings_name(names.last()) {
            with_name(before, names.last())
        } else {
            before
        }
    }
}

/// The texts of a list, as characters.
pub open spec fn texts(v: Seq<String>) -> Seq<Seq<char>> {
    v.map_values(|s: String| s@)
}

/// Decides whether a name ends with the four characters of a settings file.
fn is_settings_name(name: &Vec<char>) -> (r: bool)
    ensures
        r == settings_name(name@),
{
    proof {
        reveal_strlit(".ini");
    }
    if name.len() <= 4 {
        return false;
    }
    let end = slice_chars(name, name.len() - 4, name.len());
    same_chars(&end, &chars_of(".ini"))
}

proof fn lemma_with_name(s: Seq<Seq<char>>, x: Seq<char>, i: int)
    requires
        0 <= i <= s.len(),
        i > 0 ==> !comes_before(x, s[i - 1]),
        forall|j: int| i <= j < s.len() ==> comes_before(x, #[trigger] s[j]),
    ensures
        with_name(s, x) == s.insert(i, x),
    decreases s.len(),
{
    if i == s.len() {
        assert(s.insert(i, x) =~= s.push(x));
    } else {
        assert(comes_before(x, s[s.len() - 1]));
        assert forall|j: int| i <= j < s.drop_last().len() implies comes_before(
            x,
            #[trigger] s.drop_last()[j],
        ) by {
            assert(s.drop_last()[j] == s[j]);
        }
        lemma_with_name(s.drop_last(), x, i);
        assert(s.insert(i, x) =~= s.drop_last().insert(i, x).push(s.last()));
    }
}

/// Puts a name in its place.
fn insert_name(out: &mut Vec<String>, name: String)
    ensures
        texts(final(out)@) == with_name(texts(old(out)@), name@),
{
    let chars = chars_of(name.as_str());
    let ghost all = texts(out@);
    let mut i: usize = out.len();
    while i > 0 && is_before(&chars, &chars_of(out[i - 1].as_str()))
        invariant
            i <= out@.len(),
            all == texts(out@),
            chars@ == name@,
            forall|j: int| i <= j < all.len() ==> comes_before(name@, #[trigger] all[j]),
        decreases i,
    {
        i = i - 1;
        assert(all[i as int] == out@[i as int]@);
    }
    proof {
        if i > 0 {
            assert(all[i - 1] == out@[i - 1]@);
        }
        lemma_with_name(all, name@, i as int);
    }
    let ghost x = name@;
    out.insert(i, name);
    assert(texts(out@) =~= all.insert(i as int, x));
}

/// The settings files among the names of a directory, in order.
pub fn list_profiles(names: &Vec<String>) -> (r: Vec<String>)
    ensures
        texts(r@) == settings_among(texts(names@)),
{
    let ghost all = texts(names@);
    let mut out: Vec<String> = Vec::new();
    assert(all.take(0) =~= Seq::<Seq<char>>::empty());
    assert(texts(out@) =~= Seq::<Seq<char>>::empty());
    for i in 0..names.len()
        invariant
            all == texts(names@),
            texts(out@) == settings_among(all.take(i as int)),
    {
        assert(all.take(i + 1).drop_last() =~= all.take(i as int));
        assert(all.take(i + 1).last() == names@[i as int]@);
        if is_settings_name(&chars_of(names[i].as_str())) {
            insert_name(&mut out, names[i].clone());
        }
    }
    assert(all.take(names@.len() as int) =~= all);
    out
}

/// A text that does not come before the second of two, where the first comes before
/// it, comes behind the first.
proof fn lemma_between(a: Seq<char>, b: Seq<char>, c: Seq<char>)
    requires
        comes_before(a, b),
        !comes_before(c, b),
    ensures
        comes_before(a, c),
    decreases a.len(),
{
    if a.len() > 0 && b.len() > 0 && c.len() > 0 && a[0] == b[0] && b[0] == c[0] {
        lemma_between(a.drop_first(), b.drop_first(), c.drop_first());
    }
}

/// No text comes before one that comes before it.
proof fn lemma_not_both(a: Seq<char>, b: Seq<char>)
    requires
        comes_before(a, b),
    ensures
        !comes_before(b, a),
    decreases a.len(),
{
    if a.len() > 0 && b.len() > 0 && a[0] == b[0] {
        lemma_not_both(a.drop_first(), b.drop_first());
    }
}

/// Whether no text of a list comes before one that stands in front of it.
pub open spec fn in_order(s: Seq<Seq<char>>) -> bool {
    forall|i: int, j: int|
        0 <= i < j < s.len() ==> !comes_before(#[trigger] s[j], #[trigger] s[i])
}

proof fn lemma_insertion_ordered(s: Seq<Seq<char>>, x: Seq<char>)
    requires
        in_order(s),
    ensures
        in_order(with_name(s, x)),
        with_name(s, x).len() == s.len() + 1,
        with_name(s, x).to_multiset() == s.to_multiset().insert(x),
        forall|y: Seq<char>| with_name(s, x).contains(y) ==> s.contains(y) || y == x,
    decreases s.len(),
{
    broadcast use vstd::seq_lib::group_to_multiset_ensures;

    if s.len() == 0 || !comes_before(x, s.last()) {
        let r = s.push(x);
        assert forall|y: Seq<char>| r.contains(y) implies s.contains(y) || y == x by {
            let k = r.index_of(y);
            if k < s.len() {
                assert(s[k] == y);
            }
        }
        assert forall|i: int, j: int| 0 <= i < j < r.len() implies !comes_before(
            #[trigger] r[j],
            #[trigger] r[i],
        ) by {
            if j == s.len() && i < s.len() - 1 && comes_before(x, s[i]) {
                assert(!comes_before(s[s.len() - 1], s[i]));
                lemma_between(x, s[i], s.last());
            }
        }
    } else {
        let front = s.drop_last();
        lemma_insertion_ordered(front, x);
        let r = with_name(front, x);
        let all = r.push(s.last());
        assert(s =~= front.push(s.last()));
        assert forall|y: Seq<char>| all.contains(y) implies s.contains(y) || y == x by {
            let k = all.index_of(y);
            if k < r.len() {
                assert(r[k] == y);
                assert(r.contains(y));
                if front.contains(y) {
                    let m = front.index_of(y);
                    assert(s[m] == y);
                }
            } else {
                assert(s[s.len() - 1] == y);
            }
        }
        assert forall|i: int, j: int| 0 <= i < j < all.len() implies !comes_before(
            #[trigger] all[j],
            #[trigger] all[i],
        ) by {
            if j == r.len() {
                let y = r[i];
                assert(r.contains(y));
                if front.contains(y) {
                    let m = front.index_of(y);
                    assert(s[m] == y);
                    assert(!comes_before(s[s.len() - 1], s[m]));
                } else {
                    lemma_not_both(x, s.last());
                }
            }
        }
        assert(all.to_multiset() =~= s.to_multiset().insert(x));
    }
}

/// The settings files of a directory stand in the order of their names, and they are
/// all of the names that are those of settings files, as often as they occur.
pub proof fn law_settings_are_in_order(names: Seq<Seq<char>>)
    ensures
        in_order(settings_among(names)),
        settings_among(names).to_multiset() == names.filter(
            |n: Seq<char>| settings_name(n),
        ).to_multiset(),
    decreases names.len(),
{
    broadcast use vstd::seq_lib::group_to_multiset_ensures;

    let f = |n: Seq<char>| settings_name(n);
    reveal(Seq::filter);
    if names.len() > 0 {
        let front = names.drop_last();
        law_settings_are_in_order(front);
        assert(names =~= front.push(names.last()));
        if settings_name(names.last()) {
            lemma_insertion_ordered(settings_among(front), names.last());
            assert(names.filter(f) =~= front.filter(f).push(names.last()));
        } else {
            assert(names.filter(f) =~= front.filter(f));
        }
    } else {
        assert(settings_among(names) =~= names.filter(f));
    }
}

/// Where a text first stands in a list, or the length of the list.
pub open spec fn place_of(list: Seq<Seq<char>>, x: Seq<char>) -> int
    decreases list.len(),
{
    if list.len() == 0 || list[0] == x {
        0
    } else {
        1 + place_of(list.drop_first(), x)
    }
}

/// Which of the settings files is used: the one with the number, counted from one,
/// that the first line of the input gives, else the default one, else the first.
pub open spec fn chosen_profile(names: Seq<Seq<char>>, input: Seq<char>) -> int {
    match size_value(trimmed(split(input, '\n')[0])) {
        Some(n) => if 1 <= n <= names.len() {
            n - 1
        } else {
            default_profile(names)
        },
        None => default_profile(names),
    }
}

/// The settings file that is used where none is named.
pub open spec fn default_profile(names: Seq<Seq<char>>) -> int {
    let k = place_of(names, "_default.ini"@);
    if k < names.len() {
        k
    } else {
        0
    }
}

proof fn lemma_place_of(list: Seq<Seq<char>>, x: Seq<char>, k: int)
    requires
        0 <= k <= list.len(),
        k < list.len() ==> list[k] == x,
        forall|j: int| 0 <= j < k ==> #[trigger] list[j] != x,
    ensures
        place_of(list, x) == k,
    decreases list.len(),
{
    if k > 0 {
        assert(list[0] != x);
        assert forall|j: int| 0 <= j < k - 1 implies #[trigger] list.drop_first()[j] != x by {
            assert(list.drop_first()[j] == list[j + 1]);
        }
        lemma_place_of(list.drop_first(), x, k - 1);
    }
}

/// The settings file that is used where none is named.
fn find_default(names: &Vec<String>) -> (r: usize)
    requires
        names@.len() > 0,
    ensures
        r == default_profile(texts(names@)),
        r < names@.len(),
{
    let ghost all = texts(names@);
    for i in 0..names.len()
        invariant
            names@.len() > 0,
            all == texts(names@),
            forall|j: int| 0 <= j < i ==> #[trigger] all[j] != "_default.ini"@,
    {
        assert(all[i as int] == names@[i as int]@);
        if same_text(names[i].as_str(), "_default.ini") {
            proof {
                lemma_place_of(all, "_default.ini"@, i as int);
            }
            return i;
        }
    }
    proof {
        lemma_place_of(all, "_default.ini"@, all.len() as int);
    }
    0
}

/// Which of the settings files is used.
pub fn choose_profile(names: &Vec<String>, input: &str) -> (r: usize)
    requires
        names@.len() > 0,
    ensures
        r == chosen_profile(texts(names@), input@),
        r < names@.len(),
{
    let lines = split_chars(&chars_of(input), '\n');
    assert(split(input@, '\n').len() >= 1);
    assert(pieces(lines@).len() == lines@.len());
    assert(pieces(lines@)[0] == lines@[0]@);
    match read_size(&trim(&lines[0])) {
        Some(n) => if n >= 1 && n <= names.len() {
            n - 1
        } else {
            find_default(names)
        },
        None => find_default(names),
    }
}

/// The name of the file with the first `n` shapes of an image.
pub fn output_name(stem: &str, n: usize) -> (r: String)
    ensures
        r@ == stem@ + "_"@ + decimal(n as nat) + ".json"@,
{
    let mut s = stem.to_string();
    s.append("_");
    push_decimal(&mut s, n as u64);
    s.append(".json");
    s
}

/// How many invocations of a kernel form a group.
pub const GROUP_SIZE: u64 = 64;

/// How many groups one dispatch can have.
pub const MOST_GROUPS: usize = 65535;

/// How many mutations one round of a climb tries.
pub const CLIMB_WIDTH: usize = 256;

/// The bytes of one shape in a buffer.
pub const SHAPE_BYTES: u64 = 48;

/// How many pixels the working image can have: sixteen bytes of each go into one
/// buffer, and one dispatch covers them all.
pub open spec fn pixel_limit(binding_bytes: int, buffer_bytes: int) -> int {
    let a = binding_bytes / 16;
    let b = buffer_bytes / 16;
    let c = MOST_GROUPS * GROUP_SIZE;
    let ab = if a < b {
        a
    } else {
        b
    };
    if ab < c {
        ab
    } else {
        c
    }
}

/// How many pixels the working image can have.
pub fn pixel_cap(binding_bytes: u64, buffer_bytes: u64) -> (r: u64)
    ensures
        r == pixel_limit(binding_bytes as int, buffer_bytes as int),
{
    let a: u64 = binding_bytes / 16;
    let b: u64 = buffer_bytes / 16;
    let c: u64 = 65535 * 64;
    let ab: u64 = if a < b {
        a
    } else {
        b
    };
    if ab < c {
        ab
    } else {
        c
    }
}

/// The kernels of the generator.
#[derive(Clone, Copy, Debug, PartialEq, Eq, Structural)]
pub enum Kernel {
    Evaluate,
    Reduce,
    Advance,
    CommitArgs,
    Commit,
    EndShape,
}

/// The parameters that a kernel runs with.
#[derive(Clone, Copy, Debug, PartialEq, Eq, Structural)]
pub enum Slot {
    EvaluateRandom,
    ReduceFirst,
    EvaluateClimb,
    ReduceFold,
    Other,
}

/// One run of a kernel; without a number of groups, that comes from a buffer.
#[derive(Clone, Copy, Debug, PartialEq, Eq, Structural)]
pub struct Pass {
    pub kernel: Kernel,
    pub slot: Slot,
    pub groups: Option<u32>,
}

/// What the settings ask of the graphics processor.
#[derive(Clone, Copy, Debug, PartialEq, Eq, Structural)]
pub struct WorkPlan {
    /// How many random candidates are tried for each shape.
    pub random: u32,
    /// How many candidates are tried at once at most.
    pub candidates: u32,
    /// How many rounds a climb has.
    pub rounds: usize,
    /// The bytes of the results of the candidates.
    pub result_bytes: u64,
    /// The bytes of all shapes.
    pub shape_bytes: u64,
}

/// What the settings ask of the graphics processor.
pub open spec fn work_plan(p: ProfileView) -> WorkPlan {
    let random = if p.random_samples < MOST_GROUPS {
        p.random_samples
    } else {
        MOST_GROUPS
    };
    let candidates = if random < CLIMB_WIDTH {
        CLIMB_WIDTH
    } else {
        random
    };
    WorkPlan {
        random: random as u32,
        candidates: candidates as u32,
        rounds: if p.mutated_samples < CLIMB_WIDTH {
            1
        } else {
            (p.mutated_samples / 256) as usize
        },
        result_bytes: (candidates * SHAPE_BYTES) as u64,
        shape_bytes: (p.stop_at * SHAPE_BYTES) as u64,
    }
}

/// What the settings ask of the graphics processor.
pub fn plan_work(p: &Profile) -> (r: WorkPlan)
    requires
        p.stop_at * SHAPE_BYTES <= u64::MAX,
    ensures
        r == work_plan(p@),
{
    let random: usize = if p.random_samples < MOST_GROUPS {
        p.random_samples
    } else {
        MOST_GROUPS
    };
    let candidates: usize = if random < CLIMB_WIDTH {
        CLIMB_WIDTH
    } else {
        random
    };
    let rounds: usize = if p.mutated_samples < CLIMB_WIDTH {
        1
    } else {
        p.mutated_samples / 256
    };
    WorkPlan {
        random: random as u32,
        candidates: candidates as u32,
        rounds,
        result_bytes: candidates as u64 * SHAPE_BYTES,
        shape_bytes: p.stop_at as u64 * SHAPE_BYTES,
    }
}

/// How many passes one shape takes.
pub open spec fn pass_count(plan: WorkPlan) -> int {
    3 * plan.rounds + 5
}

/// Pass `i` of a shape: random candidates and the best of them, in each round
/// mutations of the best and the best of all, and then the shape on the canvas.
pub open spec fn pass_of(plan: WorkPlan, i: int) -> Option<Pass> {
    let climbed = 2 + 3 * plan.rounds;
    if i < 0 {
        None
    } else if i == 0 {
        Some(
            Pass {
                kernel: Kernel::Evaluate,
                slot: Slot::EvaluateRandom,
                groups: Some(plan.random),
            },
        )
    } else if i == 1 {
        Some(Pass { kernel: Kernel::Reduce, slot: Slot::ReduceFirst, groups: Some(1) })
    } else if i < climbed {
        if (i - 2) % 3 == 0 {
            Some(Pass { kernel: Kernel::Advance, slot: Slot::Other, groups: Some(1) })
        } else if (i - 2) % 3 == 1 {
            Some(
                Pass { kernel: Kernel::Evaluate, slot: Slot::EvaluateClimb, groups: Some(256) },
            )
        } else {
            Some(Pass { kernel: Kernel::Reduce, slot: Slot::ReduceFold, groups: Some(1) })
        }
    } else if i == climbed {
        Some(Pass { kernel: Kernel::CommitArgs, slot: Slot::Other, groups: Some(1) })
    } else if i == climbed + 1 {
        Some(Pass { kernel: Kernel::Commit, slot: Slot::Other, groups: None })
    } else if i == climbed + 2 {
        Some(Pass { kernel: Kernel::EndShape, slot: Slot::Other, groups: Some(1) })
    } else {
        None
    }
}

/// Pass `i` of a shape; none behind the last.
pub fn pass_at(plan: &WorkPlan, i: u64) -> (r: Option<Pass>)
    requires
        plan.rounds <= usize::MAX / 256,
    ensures
        r == pass_of(*plan, i as int),
        r is Some <==> i < pass_count(*plan),
{
    let climbed: u64 = 2 + 3 * (plan.rounds as u64);
    if i == 0 {
        Some(
            Pass {
                kernel: Kernel::Evaluate,
                slot: Slot::EvaluateRandom,
                groups: Some(plan.random),
            },
        )
    } else if i == 1 {
        Some(Pass { kernel: Kernel::Reduce, slot: Slot::ReduceFirst, groups: Some(1) })
    } else if i < climbed {
        if (i - 2) % 3 == 0 {
            Some(Pass { kernel: Kernel::Advance, slot: Slot::Other, groups: Some(1) })
        } else if (i - 2) % 3 == 1 {
            Some(
                Pass { kernel: Kernel::Evaluate, slot: Slot::EvaluateClimb, groups: Some(256) },
            )
        } else {
            Some(Pass { kernel: Kernel::Reduce, slot: Slot::ReduceFold, groups: Some(1) })
        }
    } else if i == climbed {
        Some(Pass { kernel: Kernel::CommitArgs, slot: Slot::Other, groups: Some(1) })
    } else if i == climbed + 1 {
        Some(Pass { kernel: Kernel::Commit, slot: Slot::Other, groups: None })
    } else if i == climbed + 2 {
        Some(Pass { kernel: Kernel::EndShape, slot: Slot::Other, groups: Some(1) })
    } else {
        None
    }
}

/// The size of the image, the number of candidates and whether they are mutations.
#[derive(Clone, Copy, Debug, PartialEq, Eq, Structural)]
pub struct SlotDims {
    pub w: u32,
    pub h: u32,
    pub candidates: u32,
    pub climb: u32,
}

/// The parameters of a slot.
pub open spec fn dims_of(slot: Slot, w: u32, h: u32, plan: WorkPlan) -> SlotDims {
    match slot {
        Slot::EvaluateRandom => SlotDims { w, h, candidates: plan.random, climb: 0 },
        Slot::ReduceFirst => SlotDims { w, h, candidates: plan.random, climb: 0 },
        Slot::EvaluateClimb => SlotDims { w, h, candidates: 256, climb: 1 },
        Slot::ReduceFold => SlotDims { w, h, candidates: 256, climb: 1 },
        Slot::Other => SlotDims { w, h, candidates: 0, climb: 0 },
    }
}

/// The parameters of a slot.
pub fn slot_dims(slot: Slot, w: u32, h: u32, plan: &WorkPlan) -> (r: SlotDims)
    ensures
        r == dims_of(slot, w, h, *plan),
{
    match slot {
        Slot::EvaluateRandom => SlotDims { w, h, candidates: plan.random, climb: 0 },
        Slot::ReduceFirst => SlotDims { w, h, candidates: plan.random, climb: 0 },
        Slot::EvaluateClimb => SlotDims { w, h, candidates: 256, climb: 1 },
        Slot::ReduceFold => SlotDims { w, h, candidates: 256, climb: 1 },
        Slot::Other => SlotDims { w, h, candidates: 0, climb: 0 },
    }
}

/// Whether the shapes are written when there are `n` of them: at the end, at every
/// multiple of the interval, and at each save point.
pub open spec fn saved_at(p: ProfileView, n: usize) -> bool {
    n == p.stop_at || n % p.save_every == 0 || p.save_at.contains(n)
}

/// Decides `saved_at`.
pub fn should_save(p: &Profile, n: usize) -> (r: bool)
    requires
        p.save_every >= 1,
    ensures
        r == saved_at(p@, n),
{
    if n == p.stop_at || n % p.save_every == 0 {
        return true;
    }
    for i in 0..p.save_at.len()
        invariant
            forall|j: int| 0 <= j < i ==> p.save_at@[j] != n,
    {
        if p.save_at[i] == n {
            assert(p.save_at@[i as int] == n);
            return true;
        }
    }
    false
}

/// The last shape of a run is always saved, and with it every shape.
pub proof fn law_last_shape_is_saved(p: ProfileView)
    ensures
        saved_at(p, p.stop_at),
{
}

/// Whether a pixel with this opacity is matched: all of them with a white
/// background, those that are at least half opaque without a background.
pub open spec fn scored(alpha: u8, transparent: bool) -> bool {
    !transparent || alpha >= 128
}

/// Decides `scored`.
pub fn is_scored(alpha: u8, transparent: bool) -> (r: bool)
    ensures
        r == scored(alpha, transparent),
{
    !transparent || alpha >= 128
}

/// How many of the first `n` pixels are matched; four bytes to a pixel, the opacity
/// last.
pub open spec fn scored_pixels(rgba: Seq<u8>, transparent: bool, n: int) -> int
    decreases n,
{
    if n <= 0 {
        0
    } else {
        scored_pixels(rgba, transparent, n - 1) + (if scored(rgba[4 * n - 1], transparent) {
            1int
        } else {
            0
        })
    }
}

/// The longest side of an image that is resized.
pub const LONGEST_SIDE: u32 = 0x40_0000;

/// Whether an image with `w` by `h` pixels can be given `nw` by `nh` pixels: no side is
/// longer than the longest, unless the size stays the same, and sixteen bytes for each
/// pixel fit in memory.
pub open spec fn resizable(w: u32, h: u32, nw: u32, nh: u32) -> bool {
    &&& w > 0 && h > 0 && nw > 0 && nh > 0
    &&& nw == w && nh == h || {
        &&& w <= LONGEST_SIDE
        &&& h <= LONGEST_SIDE
        &&& nw <= LONGEST_SIDE
        &&& nh <= LONGEST_SIDE
    }
    &&& w * nh * 16 <= isize::MAX
    &&& nw * nh * 16 <= isize::MAX
}

/// Decides `resizable`.
pub fn is_resizable(w: u32, h: u32, nw: u32, nh: u32) -> (r: bool)
    ensures
        r == resizable(w, h, nw, nh),
{
    proof {
        assert(0 <= w * nh <= 0xFFFF_FFFF * 0xFFFF_FFFF) by (nonlinear_arith)
            requires
                0 <= w <= 0xFFFF_FFFF,
                0 <= nh <= 0xFFFF_FFFF,
        ;
        assert(0 <= nw * nh <= 0xFFFF_FFFF * 0xFFFF_FFFF) by (nonlinear_arith)
            requires
                0 <= nw <= 0xFFFF_FFFF,
                0 <= nh <= 0xFFFF_FFFF,
        ;
    }
    let short = w <= LONGEST_SIDE && h <= LONGEST_SIDE && nw <= LONGEST_SIDE && nh <= LONGEST_SIDE;
    w > 0 && h > 0 && nw > 0 && nh > 0 && (nw == w && nh == h || short) && w as u128 * nh as u128
        * 16 <= isize::MAX as u128 && nw as u128 * nh as u128 * 16 <= isize::MAX as u128
}

/// What `image::imageops::resize` makes of an image with `w` by `h` pixels of four
/// bytes each when it is to have `nw` by `nh` pixels, with the triangle filter.
pub uninterp spec fn resized(rgba: Seq<u8>, w: u32, h: u32, nw: u32, nh: u32) -> Seq<u8>;

/// `image::imageops::resize` with the triangle filter: the new image depends on the
/// old one and on the sizes alone, has four bytes to a pixel, and is the old one
/// where the size stays the same.
///
/// The function fails where the weights of all source pixels that count for a new
/// pixel are zero. With sides of up to two to the power of 22 that does not happen:
/// the place of a new pixel in the source is computed in single precision with two
/// roundings, so it is off by less than half a pixel, and the source pixel next to the
/// true place is less than one pixel away from the computed one. Its weight is above
/// zero, and it is among those that count.
#[verifier::external_body]
fn resize_rgba(rgba: Vec<u8>, w: u32, h: u32, nw: u32, nh: u32) -> (r: Vec<u8>)
    requires
        resizable(w, h, nw, nh),
        rgba@.len() == w * h * 4,
    ensures
        r@ == resized(rgba@, w, h, nw, nh),
        r@.len() == nw * nh * 4,
        nw == w && nh == h ==> r@ == rgba@,
{
    match image::RgbaImage::from_raw(w, h, rgba) {
        Some(source) => image::imageops::resize(
            &source,
            nw,
            nh,
            image::imageops::FilterType::Triangle,
        ).into_raw(),
        None => Vec::new(),
    }
}

/// The image that is matched, and how much of it is.
#[derive(Debug)]
pub struct WorkingImage {
    /// Four bytes to a pixel, the opacity last.
    pub rgba: Vec<u8>,
    /// How many of its pixels are matched.
    pub counted: u64,
}

/// Counts the pixels that are matched.
pub fn count_scored_pixels(rgba: &Vec<u8>, transparent: bool) -> (r: u64)
    ensures
        r == scored_pixels(rgba@, transparent, rgba@.len() as int / 4),
        r <= rgba@.len() / 4,
{
    let n: usize = rgba.len() / 4;
    let mut counted: u64 = 0;
    for i in 0..n
        invariant
            n == rgba@.len() / 4,
            n == rgba.len() / 4,
            counted == scored_pixels(rgba@, transparent, i as int),
            counted <= i,
    {
        if is_scored(rgba[4 * i + 3], transparent) {
            counted = counted + 1;
        }
    }
    counted
}

/// The image that is matched, at its working size.
pub fn working_image(
    rgba: Vec<u8>,
    w: u32,
    h: u32,
    nw: u32,
    nh: u32,
    transparent: bool,
) -> (r: WorkingImage)
    requires
        resizable(w, h, nw, nh),
        rgba@.len() == w * h * 4,
    ensures
        r.rgba@ == resized(rgba@, w, h, nw, nh),
        r.rgba@.len() == nw * nh * 4,
        nw == w && nh == h ==> r.rgba@ == rgba@,
        r.counted == scored_pixels(r.rgba@, transparent, nw * nh),
        r.counted <= nw * nh,
{
    let rgba = resize_rgba(rgba, w, h, nw, nh);
    let counted = count_scored_pixels(&rgba, transparent);
    assert(rgba@.len() as int / 4 == nw * nh);
    WorkingImage { rgba, counted }
}

/// A colour channel over white, to the nearest whole number.
pub open spec fn whitened(c: u8, alpha: u8) -> int {
    (2 * (c * alpha + 255 * (255 - alpha)) + 255) / 510
}

/// A colour channel over white.
pub fn over_white(c: u8, alpha: u8) -> (r: u8)
    ensures
        r == whitened(c, alpha),
{
    proof {
        assert(0 <= c * alpha <= 255 * alpha) by (nonlinear_arith)
            requires
                0 <= c <= 255,
                0 <= alpha,
        ;
    }
    let blended: u32 = c as u32 * alpha as u32 + 255 * (255 - alpha as u32);
    ((2 * blended + 255) / 510) as u8
}

/// What is said of the pixels that are matched.
pub open spec fn mask_lines(transparent: bool, counted: int, total: int) -> Seq<Seq<char>> {
    if transparent {
        let first = "Transparent mode ON: "@ + decimal(counted as nat) + " / "@ + decimal(
            total as nat,
        ) + " px are subject (scored), "@ + decimal((total - counted) as nat)
            + " masked as background (bg alpha 0)."@;
        if total == counted {
            seq![
                first,
                "WARNING: 0 px masked -> the source image has NO transparent pixels (alpha is fully opaque). Transparent mode can only skip real alpha; supply a cut-out PNG with transparency."@,
            ]
        } else {
            seq![first]
        }
    } else {
        seq!["Transparent mode OFF (White): whole image is filled."@]
    }
}

/// What is said of the pixels that are matched.
pub fn describe_mask(transparent: bool, counted: u64, total: u64) -> (r: Vec<String>)
    requires
        counted <= total,
    ensures
        texts(r@) == mask_lines(transparent, counted as int, total as int),
{
    let mut out: Vec<String> = Vec::new();
    if transparent {
        let mut s = "Transparent mode ON: ".to_string();
        push_decimal(&mut s, counted);
        s.append(" / ");
        push_decimal(&mut s, total);
        s.append(" px are subject (scored), ");
        push_decimal(&mut s, total - counted);
        s.append(" masked as background (bg alpha 0).");
        out.push(s);
        if total == counted {
            out.push(
                "WARNING: 0 px masked -> the source image has NO transparent pixels (alpha is fully opaque). Transparent mode can only skip real alpha; supply a cut-out PNG with transparency.".to_string(),
            );
        }
    } else {
        out.push("Transparent mode OFF (White): whole image is filled.".to_string());
    }
    assert(texts(out@) =~= mask_lines(transparent, counted as int, total as int));
    out
}

/// How opaque the background of a geometry is.
pub open spec fn background_opacity(p: ProfileView) -> u8 {
    if p.transparent_bg {
        0
    } else {
        255
    }
}

/// How opaque the background of a geometry is.
pub fn background_alpha(p: &Profile) -> (r: u8)
    ensures
        r == background_opacity(p@),
        r == (if p.transparent_bg {
            0u8
        } else {
            255u8
        }),
{
    if p.transparent_bg {
        0
    } else {
        255
    }
}

/// What is said at the end; `hsv` is the colour of the background as the program
/// writes it.
pub open spec fn closing(p: ProfileView, hsv: Seq<char>) -> Seq<char> {
    if p.transparent_bg {
        "Transparent sticker: no background, no car-colour matching needed."@
    } else if p.shape_alpha >= 255 {
        "Opaque sticker: solid shapes, looks the same on any car colour."@
    } else {
        "Blended shapes (alpha "@ + decimal(p.shape_alpha as nat)
            + "): for a clean look set the car colour to HSV\n"@ + hsv
            + "\n(or use Background=Transparent / Opacity=255 to skip colour matching)."@
    }
}

/// What is said at the end.
pub fn closing_text(p: &Profile, hsv: &str) -> (r: String)
    ensures
        r@ == closing(p@, hsv@),
{
    if p.transparent_bg {
        "Transparent sticker: no background, no car-colour matching needed.".to_string()
    } else if p.shape_alpha >= 255 {
        "Opaque sticker: solid shapes, looks the same on any car colour.".to_string()
    } else {
        let mut s = "Blended shapes (alpha ".to_string();
        push_decimal(&mut s, p.shape_alpha as u64);
        s.append("): for a clean look set the car colour to HSV\n");
        s.append(hsv);
        s.append("\n(or use Background=Transparent / Opacity=255 to skip colour matching).");
        s
    }
}

/// What is said of the settings before the work starts.
pub fn settings_text(p: &Profile) -> (r: String)
    ensures
        r@ == "stopAt="@ + decimal(p.stop_at as nat) + " randomSamples="@ + decimal(
            p.random_samples as nat,
        ) + " mutatedSamples="@ + decimal(p.mutated_samples as nat) + " maxResolution="@ + decimal(
            p.max_resolution as nat,
        ) + " posterizeLevels="@ + decimal(p.posterize_levels as nat),
{
    let mut s = "stopAt=".to_string();
    push_decimal(&mut s, p.stop_at as u64);
    s.append(" randomSamples=");
    push_decimal(&mut s, p.random_samples as u64);
    s.append(" mutatedSamples=");
    push_decimal(&mut s, p.mutated_samples as u64);
    s.append(" maxResolution=");
    push_decimal(&mut s, p.max_resolution as u64);
    s.append(" posterizeLevels=");
    push_decimal(&mut s, p.posterize_levels as u64);
    s
}

} // verus!
