//! How settings reach the generator from a file and from the command line.

use vstd::prelude::*;
use vstd::string::*;

use crate::cli::{
    command_of, flag_from, flag_value, has_settings, hex_flag, hex_value,
    law_hexadecimal_is_read_back, profile_of_args, word_flag, word_value, CommandView,
};
use crate::generate::{
    chosen_profile, comes_before, line_value, numbers_among, place_of, settings_in, settings_name,
    size_value, value_in,
};
use crate::text::{
    all_space, ascii_lowered, decimal, digits_value, first_at, hexadecimal, is_space,
    lemma_decimal_text, lemma_first_at, lemma_first_at_is, lemma_trimmed_around, split, trimmed,
    trimmed_end, trimmed_start, unsigned_value,
};

verus! {

/// A word that can name a setting: no equals sign in it, no white space around it, no
/// comment.
pub open spec fn plain_name(key: Seq<char>) -> bool {
    &&& key.len() > 0
    &&& !key.contains('=')
    &&& key[0] != '#'
    &&& !is_space(key[0])
    &&& !is_space(key.last())
}

/// A value without white space around it.
pub open spec fn plain_value(v: Seq<char>) -> bool {
    v.len() > 0 && !is_space(v[0]) && !is_space(v.last())
}

/// A line that gives a value to a key gives that value to that key, whatever the case of
/// its letters, and none to another.
pub proof fn law_line_sets_its_key(key: Seq<char>, v: Seq<char>, other: Seq<char>)
    requires
        plain_name(key),
        plain_value(v),
    ensures
        line_value(key + seq!['='] + v, key) == Some(v),
        ascii_lowered(other) == ascii_lowered(key) ==> line_value(key + seq!['='] + v, other)
            == Some(v),
        ascii_lowered(other) != ascii_lowered(key) ==> line_value(key + seq!['='] + v, other)
            is None,
{
    let line = key + seq!['='] + v;
    let none = Seq::<char>::empty();
    assert(line[0] == key[0]);
    assert(line.last() == v.last());
    lemma_trimmed_around(none, line, none);
    assert(none + line + none =~= line);
    lemma_trimmed_around(none, key, none);
    assert(none + key + none =~= key);
    lemma_trimmed_around(none, v, none);
    assert(none + v + none =~= v);
    let k = key.len() as int;
    assert forall|i: int| 0 <= i < k implies line[i] != '=' by {
        assert(line[i] == key[i]);
        assert(key.contains(key[i]));
    }
    assert(line[k] == '=');
    lemma_first_at_is(line, '=', k);
    assert(line.subrange(0, k) =~= key);
    assert(line.subrange(k + 1, line.len() as int) =~= v);
}

/// Of the lines of a file the first that gives a key a value counts.
pub proof fn law_first_line_counts(
    before: Seq<Seq<char>>,
    line: Seq<char>,
    after: Seq<Seq<char>>,
    key: Seq<char>,
)
    requires
        line_value(line, key) is Some,
        forall|i: int| 0 <= i < before.len() ==> line_value(#[trigger] before[i], key) is None,
    ensures
        value_in(before + seq![line] + after, key) == line_value(line, key),
    decreases before.len(),
{
    let all = before + seq![line] + after;
    if before.len() == 0 {
        assert(all[0] == line);
    } else {
        assert(all[0] == before[0]);
        let rest = before.drop_first();
        assert forall|i: int| 0 <= i < rest.len() implies line_value(#[trigger] rest[i], key)
            is None by {
            assert(rest[i] == before[i + 1]);
        }
        law_first_line_counts(rest, line, after, key);
        assert(all.drop_first() =~= rest + seq![line] + after);
    }
}

/// The number of a setting: as it is written, or what it is by default.
pub open spec fn written_number(v: Option<Seq<char>>, n: int, default: int) -> bool {
    match v {
        Some(text) => 0 <= n <= usize::MAX && text == decimal(n as nat),
        None => n == default,
    }
}

proof fn lemma_size(n: nat)
    requires
        n <= usize::MAX,
    ensures
        size_value(decimal(n)) == Some(n),
        size_value(trimmed(decimal(n))) == Some(n),
{
    lemma_decimal_text(n);
}

/// A settings file gives each setting its own number, and where it says nothing of one
/// the default: 1000 pixels, 1500 random and 600 mutated samples, 256 levels, 3000 shapes,
/// saved every 50. At least one random sample and one shape are taken and at most every
/// shape is saved, and the levels stay within 2 and 256. A file sets no background, no
/// opacity and no kind of shapes.
pub proof fn law_file_gives_each_setting(
    lines: Seq<Seq<char>>,
    resolution: int,
    random: int,
    mutated: int,
    levels: int,
    stop: int,
    every: int,
)
    requires
        written_number(value_in(lines, "maxResolution"@), resolution, 1000),
        written_number(value_in(lines, "randomSamples"@), random, 1500),
        written_number(value_in(lines, "mutatedSamples"@), mutated, 600),
        written_number(value_in(lines, "posterizeLevels"@), levels, 256),
        written_number(value_in(lines, "stopAt"@), stop, 3000),
        written_number(value_in(lines, "saveEvery"@), every, 50),
    ensures
        ({
            let p = settings_in(lines);
            &&& p.max_resolution == resolution % 0x1_0000_0000
            &&& random >= 1 ==> p.random_samples == random
            &&& random == 0 ==> p.random_samples == 1
            &&& p.mutated_samples == mutated
            &&& 2 <= levels <= 256 ==> p.posterize_levels == levels
            &&& levels < 2 ==> p.posterize_levels == 2
            &&& levels > 256 ==> p.posterize_levels == 256
            &&& stop >= 1 ==> p.stop_at == stop
            &&& stop == 0 ==> p.stop_at == 1
            &&& every >= 1 ==> p.save_every == every
            &&& every == 0 ==> p.save_every == 1
            &&& value_in(lines, "saveAt"@) is None ==> p.save_at.len() == 0
            &&& !p.transparent_bg
            &&& p.shape_alpha == 255
            &&& p.shape_mode == 0
        }),
{
    if value_in(lines, "maxResolution"@) is Some {
        lemma_size(resolution as nat);
    }
    if value_in(lines, "randomSamples"@) is Some {
        lemma_size(random as nat);
    }
    if value_in(lines, "mutatedSamples"@) is Some {
        lemma_size(mutated as nat);
    }
    if value_in(lines, "posterizeLevels"@) is Some {
        lemma_size(levels as nat);
    }
    if value_in(lines, "stopAt"@) is Some {
        lemma_size(stop as nat);
    }
    if value_in(lines, "saveEvery"@) is Some {
        lemma_size(every as nat);
    }
}

/// Numbers with commas between them.
pub open spec fn listed_numbers(v: Seq<usize>) -> Seq<Seq<char>> {
    v.map_values(|n: usize| decimal(n as nat))
}

/// The save points of a file are the numbers of its list, in their order; white space
/// around them and what is no number does not count.
pub proof fn law_save_points_are_read_in_order(v: Seq<usize>)
    ensures
        numbers_among(listed_numbers(v)) == v,
    decreases v.len(),
{
    if v.len() > 0 {
        law_save_points_are_read_in_order(v.drop_last());
        assert(listed_numbers(v).drop_last() =~= listed_numbers(v.drop_last()));
        lemma_size(v.last() as nat);
        assert(numbers_among(listed_numbers(v)) =~= v);
    } else {
        assert(numbers_among(listed_numbers(v)) =~= v);
    }
}

/// The save points of the list behind `saveAt`.
pub proof fn law_file_gives_the_save_points(lines: Seq<Seq<char>>, list: Seq<char>, v: Seq<usize>)
    requires
        value_in(lines, "saveAt"@) == Some(list),
        split(list, ',') == listed_numbers(v),
    ensures
        settings_in(lines).save_at == v,
{
    law_save_points_are_read_in_order(v);
}

/// Which settings file is used: the one with the number that is entered, counted from
/// one; else the first that is called `_default.ini`; else the first.
pub proof fn law_settings_file_is_chosen_by_number(
    names: Seq<Seq<char>>,
    input: Seq<char>,
    n: int,
    d: int,
)
    requires
        names.len() > 0,
        0 <= d <= names.len(),
        d < names.len() ==> names[d] == "_default.ini"@,
        forall|j: int| 0 <= j < d ==> #[trigger] names[j] != "_default.ini"@,
    ensures
        trimmed(split(input, '\n')[0]) == decimal(n as nat) && 1 <= n <= names.len() && n
            <= usize::MAX ==> chosen_profile(names, input) == n - 1,
        trimmed(split(input, '\n')[0]) == decimal(n as nat) && (n == 0 || names.len() < n
            <= usize::MAX) ==> chosen_profile(names, input) == (if d < names.len() {
            d
        } else {
            0
        }),
        size_value(trimmed(split(input, '\n')[0])) is None ==> chosen_profile(names, input) == (
        if d < names.len() {
            d
        } else {
            0
        }),
{
    lemma_place(names, "_default.ini"@, d);
    if 0 <= n <= usize::MAX {
        lemma_size(n as nat);
    }
}

proof fn lemma_place(list: Seq<Seq<char>>, x: Seq<char>, k: int)
    requires
        0 <= k <= list.len(),
        k < list.len() ==> list[k] == x,
        forall|j: int| 0 <= j < k ==> #[trigger] list[j] != x,
    ensures
        place_of(list, x) == k,
    decreases list.len(),
{
    if k > 0 {
        assert(list[0] != x);
        let rest = list.drop_first();
        assert forall|j: int| 0 <= j < k - 1 implies #[trigger] rest[j] != x by {
            assert(rest[j] == list[j + 1]);
        }
        lemma_place(rest, x, k - 1);
    }
}

/// The value of a flag is the argument behind its first occurrence.
pub proof fn law_flag_takes_what_follows_it(args: Seq<Seq<char>>, name: Seq<char>, k: int)
    requires
        0 <= k < args.len(),
        args[k] == name,
        forall|j: int| 0 <= j < k ==> #[trigger] args[j] != name,
    ensures
        k + 1 < args.len() ==> flag_value(args, name) == Some(args[k + 1]),
        k + 1 == args.len() ==> flag_value(args, name) is None,
{
    lemma_flag(args, name, 0, k);
}

proof fn lemma_flag(args: Seq<Seq<char>>, name: Seq<char>, i: int, k: int)
    requires
        0 <= i <= k < args.len(),
        args[k] == name,
        forall|j: int| i <= j < k ==> #[trigger] args[j] != name,
    ensures
        k + 1 < args.len() ==> flag_from(args, name, i) == Some(args[k + 1]),
        k + 1 == args.len() ==> flag_from(args, name, i) is None,
    decreases k - i,
{
    if i < k {
        assert(args[i] != name);
        lemma_flag(args, name, i + 1, k);
    }
}

/// The command line gives each setting of the generator its own number, with the same
/// defaults and bounds as a settings file. The opacity is solid by default and stays
/// within 1 and 255; the background is left out for the word `transparent` only; the
/// shapes are rectangles for `rect`, both kinds for `mixed`, and else ellipses.
pub proof fn law_command_line_gives_each_setting(
    args: Seq<Seq<char>>,
    resolution: int,
    random: int,
    mutated: int,
    levels: int,
    stop: int,
    every: int,
    opacity: int,
)
    requires
        written_number(flag_value(args, "--max-resolution"@), resolution, 1000),
        written_number(flag_value(args, "--random-samples"@), random, 1500),
        written_number(flag_value(args, "--mutated-samples"@), mutated, 600),
        written_number(flag_value(args, "--posterize-levels"@), levels, 256),
        written_number(flag_value(args, "--stop-at"@), stop, 3000),
        written_number(flag_value(args, "--save-every"@), every, 50),
        written_number(flag_value(args, "--opacity"@), opacity, 255),
        opacity <= u32::MAX,
    ensures
        ({
            let p = profile_of_args(args);
            &&& p.max_resolution == resolution % 0x1_0000_0000
            &&& random >= 1 ==> p.random_samples == random
            &&& random == 0 ==> p.random_samples == 1
            &&& p.mutated_samples == mutated
            &&& 2 <= levels <= 256 ==> p.posterize_levels == levels
            &&& levels < 2 ==> p.posterize_levels == 2
            &&& levels > 256 ==> p.posterize_levels == 256
            &&& stop >= 1 ==> p.stop_at == stop
            &&& stop == 0 ==> p.stop_at == 1
            &&& every >= 1 ==> p.save_every == every
            &&& every == 0 ==> p.save_every == 1
            &&& p.save_at.len() == 0
            &&& 1 <= opacity <= 255 ==> p.shape_alpha == opacity
            &&& opacity == 0 ==> p.shape_alpha == 1
            &&& opacity > 255 ==> p.shape_alpha == 255
            &&& flag_value(args, "--background"@) == Some("transparent"@) ==> p.transparent_bg
            &&& flag_value(args, "--background"@) == Some("white"@) ==> !p.transparent_bg
            &&& flag_value(args, "--background"@) is None ==> !p.transparent_bg
            &&& flag_value(args, "--shapes"@) == Some("rect"@) ==> p.shape_mode == 1
            &&& flag_value(args, "--shapes"@) == Some("mixed"@) ==> p.shape_mode == 2
            &&& flag_value(args, "--shapes"@) is None ==> p.shape_mode == 0
            &&& flag_value(args, "--shapes"@) == Some("ellipse"@) ==> p.shape_mode == 0
        }),
{
    if flag_value(args, "--max-resolution"@) is Some {
        lemma_size(resolution as nat);
    }
    if flag_value(args, "--random-samples"@) is Some {
        lemma_size(random as nat);
    }
    if flag_value(args, "--mutated-samples"@) is Some {
        lemma_size(mutated as nat);
    }
    if flag_value(args, "--posterize-levels"@) is Some {
        lemma_size(levels as nat);
    }
    if flag_value(args, "--stop-at"@) is Some {
        lemma_size(stop as nat);
    }
    if flag_value(args, "--save-every"@) is Some {
        lemma_size(every as nat);
    }
    if flag_value(args, "--opacity"@) is Some {
        lemma_decimal_text(opacity as nat);
    }
    reveal_strlit("transparent");
    reveal_strlit("white");
    reveal_strlit("rect");
    reveal_strlit("mixed");
    reveal_strlit("ellipse");
    assert("rect"@.len() != "mixed"@.len());
    assert("ellipse"@.len() == 7);
    let none = Seq::<char>::empty();
    lemma_trimmed_around(none, "transparent"@, none);
    assert(none + "transparent"@ + none =~= "transparent"@);
    lemma_trimmed_around(none, "white"@, none);
    assert(none + "white"@ + none =~= "white"@);
    assert(ascii_lowered("transparent"@).len() != ascii_lowered("white"@).len());
}

/// What a command line asks for is told by its second word, and each part of it comes
/// from its own flag: an import takes a file, a game, a process, two addresses in base 16,
/// a number of layers and the edge masks; a diagnosis a game and a process; a search
/// also a number of layers, which must not be zero; a generation an image, and settings
/// where any is given.
pub proof fn law_command_takes_its_own_arguments(args: Seq<Seq<char>>)
    requires
        args.len() > 1,
    ensures
        args[1] == "import"@ && args.len() > 2 ==> (command_of(args) matches CommandView::Import {
            json,
            game,
            pid,
            count_address,
            table_address,
            expected_count,
            edge_mask,
        } && {
            &&& json == args[2]
            &&& game == flag_value(args, "--game"@)
            &&& pid == word_flag(args, "--pid"@)
            &&& count_address == hex_flag(args, "--count-address"@)
            &&& table_address == hex_flag(args, "--table-address"@)
            &&& expected_count == word_flag(args, "--layer-count"@)
            &&& edge_mask == args.contains("--edge-mask"@)
        }),
        args[1] == "diagnose"@ ==> (command_of(args) matches CommandView::Diagnose { game, pid }
            && game == flag_value(args, "--game"@) && pid == word_flag(args, "--pid"@)),
        args[1] == "auto-locate"@ ==> match word_flag(args, "--layer-count"@) {
            Some(n) => if n > 0 {
                command_of(args) matches CommandView::AutoLocate { game, pid, layer_count }
                    && game == flag_value(args, "--game"@) && pid == word_flag(args, "--pid"@)
                    && layer_count == n
            } else {
                command_of(args) is Usage
            },
            None => command_of(args) is Usage,
        },
        args[1] == "generate"@ && args.len() > 2 ==> (command_of(args) matches
            CommandView::Generate { image, profile } && image == args[2] && (profile is Some
            <==> has_settings(args)) && (profile matches Some(p) ==> p == profile_of_args(args))),
        (args[1] == "generate"@ || args[1] == "import"@) && args.len() == 2 ==> command_of(args)
            is Usage,
        args[1].len() == 0 ==> command_of(args) is Window,
{
    reveal_strlit("generate");
    reveal_strlit("import");
    reveal_strlit("diagnose");
    reveal_strlit("auto-locate");
    reveal_strlit("");
    assert("generate"@[0] == 'g' && "diagnose"@[0] == 'd');
    assert("generate"@.len() == 8 && "import"@.len() == 6 && "diagnose"@.len() == 8
        && "auto-locate"@.len() == 11 && ""@.len() == 0);
    if args[1].len() == 0 {
        assert(args[1] =~= ""@);
    }
}

/// The numbers behind flags: a process and a number of layers in base 10.
pub proof fn law_flag_numbers_are_read(args: Seq<Seq<char>>, name: Seq<char>, n: u32)
    ensures
        flag_value(args, name) == Some(decimal(n as nat)) ==> word_flag(args, name) == Some(n),
        flag_value(args, name) is None ==> word_flag(args, name) is None && hex_flag(args, name)
            is None,
        flag_value(args, name) matches Some(v) ==> word_value(v) is None ==> word_flag(args, name)
            is None,
        flag_value(args, name) matches Some(v) ==> hex_value(v) is None ==> hex_flag(args, name)
            is None,
{
    lemma_decimal_text(n as nat);
}

/// The flags that set something of the generator.
pub open spec fn setting_flags() -> Seq<Seq<char>> {
    seq![
        "--max-resolution"@,
        "--stop-at"@,
        "--random-samples"@,
        "--mutated-samples"@,
        "--posterize-levels"@,
        "--save-every"@,
        "--background"@,
        "--opacity"@,
        "--shapes"@,
    ]
}

/// A generation takes its settings from the command line where any of the nine flags has a
/// value, and only there.
pub proof fn law_any_flag_gives_settings(args: Seq<Seq<char>>)
    ensures
        has_settings(args) <==> exists|k: int|
            0 <= k < 9 && flag_value(args, #[trigger] setting_flags()[k]) is Some,
{
    let f = setting_flags();
    assert(f[0] == "--max-resolution"@ && f[1] == "--stop-at"@ && f[2] == "--random-samples"@
        && f[3] == "--mutated-samples"@ && f[4] == "--posterize-levels"@ && f[5]
        == "--save-every"@ && f[6] == "--background"@ && f[7] == "--opacity"@ && f[8]
        == "--shapes"@);
    if exists|k: int| 0 <= k < 9 && flag_value(args, #[trigger] f[k]) is Some {
        let k = choose|k: int| 0 <= k < 9 && flag_value(args, #[trigger] f[k]) is Some;
        assert(k == 0 || k == 1 || k == 2 || k == 3 || k == 4 || k == 5 || k == 6 || k == 7 || k
            == 8);
    }
}

/// Whether a text is no number of a setting.
pub open spec fn no_number(v: Option<Seq<char>>) -> bool {
    v matches Some(text) && size_value(text) is None && size_value(trimmed(text)) is None
        && word_value(trimmed(text)) is None
}

/// A value that is no number counts as none: the default stays, in a file and on the
/// command line.
pub proof fn law_what_is_no_number_changes_nothing(lines: Seq<Seq<char>>, args: Seq<Seq<char>>)
    ensures
        no_number(value_in(lines, "maxResolution"@)) ==> settings_in(lines).max_resolution == 1000,
        no_number(value_in(lines, "randomSamples"@)) ==> settings_in(lines).random_samples == 1500,
        no_number(value_in(lines, "mutatedSamples"@)) ==> settings_in(lines).mutated_samples == 600,
        no_number(value_in(lines, "posterizeLevels"@)) ==> settings_in(lines).posterize_levels
            == 256,
        no_number(value_in(lines, "stopAt"@)) ==> settings_in(lines).stop_at == 3000,
        no_number(value_in(lines, "saveEvery"@)) ==> settings_in(lines).save_every == 50,
        no_number(flag_value(args, "--max-resolution"@)) ==> profile_of_args(args).max_resolution
            == 1000,
        no_number(flag_value(args, "--random-samples"@)) ==> profile_of_args(args).random_samples
            == 1500,
        no_number(flag_value(args, "--mutated-samples"@)) ==> profile_of_args(args).mutated_samples
            == 600,
        no_number(flag_value(args, "--posterize-levels"@))
            ==> profile_of_args(args).posterize_levels == 256,
        no_number(flag_value(args, "--stop-at"@)) ==> profile_of_args(args).stop_at == 3000,
        no_number(flag_value(args, "--save-every"@)) ==> profile_of_args(args).save_every == 50,
        no_number(flag_value(args, "--opacity"@)) ==> profile_of_args(args).shape_alpha == 255,
{
}

proof fn lemma_strange_digit(s: Seq<char>, radix: nat, k: int)
    requires
        0 <= k < s.len(),
        !('0' <= s[k] <= '9'),
        radix <= 10,
    ensures
        digits_value(s, radix) is None,
    decreases s.len(),
{
    if k < s.len() - 1 {
        assert(s.drop_last()[k] == s[k]);
        lemma_strange_digit(s.drop_last(), radix, k);
    }
}

/// A number in base 10 is written with digits only, with a plus sign before them or
/// without, and without digits there is none; the plus sign changes nothing.
pub proof fn law_numbers_are_digits(s: Seq<char>, k: int, n: nat, max: nat)
    requires
        n <= max,
    ensures
        0 <= k < s.len() && !('0' <= s[k] <= '9') && !(k == 0 && s[0] == '+') ==> unsigned_value(
            s,
            10,
            max,
        ) is None,
        s.len() == 0 || s == seq!['+'] ==> unsigned_value(s, 10, max) is None,
        unsigned_value(seq!['+'] + decimal(n), 10, max) == Some(n),
        unsigned_value(decimal(max + 1), 10, max) is None,
{
    if 0 <= k < s.len() && !('0' <= s[k] <= '9') && !(k == 0 && s[0] == '+') {
        if s[0] == '+' {
            assert(s.drop_first()[k - 1] == s[k]);
            lemma_strange_digit(s.drop_first(), 10, k - 1);
        } else {
            lemma_strange_digit(s, 10, k);
        }
    }
    if s == seq!['+'] {
        assert(s[0] == '+');
        assert(s.drop_first().len() == 0);
    }
    lemma_decimal_text(n);
    assert((seq!['+'] + decimal(n)).drop_first() =~= decimal(n));
    lemma_decimal_text(max + 1);
}

/// An address behind a flag is read in base 16, with `0x` before it or without.
pub proof fn law_flag_addresses_are_read(args: Seq<Seq<char>>, name: Seq<char>, n: u64)
    ensures
        flag_value(args, name) == Some(hexadecimal(n as nat)) ==> hex_flag(args, name) == Some(n),
        flag_value(args, name) == Some("0x"@ + hexadecimal(n as nat)) ==> hex_flag(args, name)
            == Some(n),
{
    let none = Seq::<char>::empty();
    let h = hexadecimal(n as nat);
    law_hexadecimal_is_read_back(n, h, none, none);
    assert(none + h + none =~= h);
    assert(none + ("0x"@ + h) + none =~= "0x"@ + h);
}

/// Whether two letters are the same in lower case: `b` is a small letter or another sign,
/// and `a` is `b` or its capital.
pub open spec fn capital_or_same(a: char, b: char) -> bool {
    a == b || ('a' <= b <= 'z' && a as int == b as int - 32)
}

/// The background is left out for the word `transparent` in letters of any size, with
/// white space around it or without.
pub proof fn law_transparent_in_any_letters(
    args: Seq<Seq<char>>,
    before: Seq<char>,
    word: Seq<char>,
    after: Seq<char>,
)
    requires
        flag_value(args, "--background"@) == Some(before + word + after),
        all_space(before),
        all_space(after),
        word.len() == 11,
        forall|i: int| 0 <= i < 11 ==> capital_or_same(#[trigger] word[i], "transparent"@[i]),
    ensures
        profile_of_args(args).transparent_bg,
{
    reveal_strlit("transparent");
    assert(capital_or_same(word[0], 't') && capital_or_same(word[10], 't'));
    lemma_trimmed_around(before, word, after);
    let low = ascii_lowered(word);
    let full = ascii_lowered("transparent"@);
    assert forall|i: int| 0 <= i < 11 implies low[i] == full[i] by {
        assert(capital_or_same(word[i], "transparent"@[i]));
        assert('a' <= "transparent"@[i] <= 'z') by {
            assert(i == 0 || i == 1 || i == 2 || i == 3 || i == 4 || i == 5 || i == 6 || i == 7 || i
                == 8 || i == 9 || i == 10);
        }
    }
    assert(low =~= full);
}

/// Names are ordered by the first letter in which they differ, and a name that another
/// starts with stands before it.
pub proof fn law_names_are_ordered_by_their_letters(a: Seq<char>, b: Seq<char>, k: int)
    requires
        0 <= k <= a.len(),
        k <= b.len(),
        forall|i: int| 0 <= i < k ==> a[i] == #[trigger] b[i],
    ensures
        k < a.len() && k < b.len() && a[k] < b[k] ==> comes_before(a, b) && !comes_before(b, a),
        k == a.len() && k < b.len() ==> comes_before(a, b) && !comes_before(b, a),
        k == a.len() && k == b.len() ==> !comes_before(a, b),
    decreases k,
{
    if k > 0 {
        assert(a[0] == b[0]);
        assert forall|i: int| 0 <= i < k - 1 implies a.drop_first()[i]
            == #[trigger] b.drop_first()[i] by {
            assert(a[i + 1] == b[i + 1]);
        }
        law_names_are_ordered_by_their_letters(a.drop_first(), b.drop_first(), k - 1);
    }
}

/// A settings file is known by a name with something before `.ini` at its end.
pub proof fn law_settings_files_are_known_by_name(stem: Seq<char>, end: Seq<char>)
    requires
        end.len() == 4,
    ensures
        settings_name(stem + end) <==> stem.len() > 0 && end == ".ini"@,
{
    let name = stem + end;
    assert(name.subrange(name.len() - 4, name.len() as int) =~= end);
}

/// Blanks, tabs and the ends of lines are white space; letters, digits and the signs of
/// settings and flags are not.
pub proof fn law_white_space_is_blank(c: char)
    ensures
        is_space(' ') && is_space('\t') && is_space('\n') && is_space('\r'),
        '!' <= c <= '~' ==> !is_space(c),
        is_space(c) && c < '\u{80}' ==> c == ' ' || '\u{9}' <= c <= '\u{d}',
{
}

/// What is taken off the ends of a text is white space, and none is left there.
pub proof fn law_only_white_space_is_taken_off(s: Seq<char>)
    ensures
        exists|before: Seq<char>, after: Seq<char>|
            #![trigger all_space(before), all_space(after)]
            all_space(before) && all_space(after) && s == before + trimmed(s) + after,
        trimmed(s).len() > 0 ==> !is_space(trimmed(s)[0]) && !is_space(trimmed(s).last()),
{
    let (before, rest) = lemma_start_taken_off(s);
    let after = lemma_end_taken_off(rest);
    assert(s =~= before + trimmed(s) + after);
}

proof fn lemma_start_taken_off(s: Seq<char>) -> (r: (Seq<char>, Seq<char>))
    ensures
        all_space(r.0),
        s == r.0 + r.1,
        r.1 == trimmed_start(s),
        r.1.len() > 0 ==> !is_space(r.1[0]),
    decreases s.len(),
{
    if s.len() > 0 && is_space(s[0]) {
        let (a, b) = lemma_start_taken_off(s.drop_first());
        let before = seq![s[0]] + a;
        assert(s =~= seq![s[0]] + s.drop_first());
        assert(seq![s[0]] + (a + b) =~= before + b);
        (before, b)
    } else {
        assert(s =~= Seq::<char>::empty() + s);
        (Seq::empty(), s)
    }
}

proof fn lemma_end_taken_off(s: Seq<char>) -> (after: Seq<char>)
    ensures
        all_space(after),
        s == trimmed_end(s) + after,
        trimmed_end(s).len() > 0 ==> !is_space(trimmed_end(s).last()) && trimmed_end(s)[0] == s[0],
    decreases s.len(),
{
    if s.len() > 0 && is_space(s.last()) {
        let a = lemma_end_taken_off(s.drop_last());
        let after = a.push(s.last());
        assert(s =~= s.drop_last().push(s.last()));
        assert((trimmed_end(s) + a).push(s.last()) =~= trimmed_end(s) + after);
        after
    } else {
        assert(s =~= s + Seq::<char>::empty());
        Seq::empty()
    }
}

/// The parts of a text with a sign between them.
pub open spec fn joined(parts: Seq<Seq<char>>, c: char) -> Seq<char>
    decreases parts.len(),
{
    if parts.len() == 0 {
        Seq::empty()
    } else if parts.len() == 1 {
        parts[0]
    } else {
        parts[0] + seq![c] + joined(parts.drop_first(), c)
    }
}

/// A text is split at every place of a sign: no part holds it, and the parts with the sign
/// between them are the text.
pub proof fn law_split_loses_nothing(s: Seq<char>, c: char)
    ensures
        split(s, c).len() > 0,
        joined(split(s, c), c) == s,
        forall|i: int| 0 <= i < split(s, c).len() ==> !(#[trigger] split(s, c)[i]).contains(c),
    decreases s.len(),
{
    let k = first_at(s, c);
    lemma_first_at(s, c);
    if 0 <= k < s.len() {
        let rest = split(s.skip(k + 1), c);
        law_split_loses_nothing(s.skip(k + 1), c);
        let all = split(s, c);
        assert(all.drop_first() =~= rest);
        assert(all[0] == s.take(k));
        assert(s =~= s.take(k) + seq![c] + s.skip(k + 1));
        assert forall|i: int| 0 <= i < all.len() implies !(#[trigger] all[i]).contains(c) by {
            if i > 0 {
                assert(all[i] == rest[i - 1]);
            }
        }
    }
}

} // verus!
