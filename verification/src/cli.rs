//! The command line.

use vstd::prelude::*;
use vstd::string::*;

use crate::generate::{
    at_least_one, hold_levels, levels, low_bits, raise, size_value, texts, truncate, usable,
    Profile, ProfileView,
};
use crate::text::{
    all_space, ascii_lowered, chars_of, digit_value, hexadecimal, in_either_case,
    lemma_either_case, lemma_hexadecimal_text, lemma_trimmed_around, parse_unsigned,
    same_ignoring_case, same_text, slice_chars, trim, trimmed, unsigned_value,
};

verus! {

/// The argument behind the first `name` from position `i` on.
pub open spec fn flag_from(args: Seq<Seq<char>>, name: Seq<char>, i: int) -> Option<Seq<char>>
    decreases args.len() - i,
{
    if i < 0 || i >= args.len() {
        None
    } else if args[i] == name {
        if i + 1 < args.len() {
            Some(args[i + 1])
        } else {
            None
        }
    } else {
        flag_from(args, name, i + 1)
    }
}

/// The argument behind the first `name`.
pub open spec fn flag_value(args: Seq<Seq<char>>, name: Seq<char>) -> Option<Seq<char>> {
    flag_from(args, name, 0)
}

/// The argument behind the first `name`.
pub fn flag(args: &Vec<String>, name: &str) -> (r: Option<String>)
    ensures
        match r {
            Some(v) => flag_value(texts(args@), name@) == Some(v@),
            None => flag_value(texts(args@), name@) is None,
        },
{
    let ghost all = texts(args@);
    for i in 0..args.len()
        invariant
            all == texts(args@),
            flag_value(all, name@) == flag_from(all, name@, i as int),
    {
        assert(all[i as int] == args@[i as int]@);
        if same_text(args[i].as_str(), name) {
            return if args.len() - i > 1 {
                assert(all[i + 1] == args@[i + 1]@);
                Some(args[i + 1].clone())
            } else {
                None
            };
        }
    }
    None
}

/// Whether `name` is among the arguments.
pub fn has_argument(args: &Vec<String>, name: &str) -> (r: bool)
    ensures
        r == texts(args@).contains(name@),
{
    let ghost all = texts(args@);
    for i in 0..args.len()
        invariant
            all == texts(args@),
            forall|j: int| 0 <= j < i ==> #[trigger] all[j] != name@,
    {
        assert(all[i as int] == args@[i as int]@);
        if same_text(args[i].as_str(), name) {
            assert(all[i as int] == name@);
            return true;
        }
    }
    false
}

/// A text without the prefix of a hexadecimal number.
pub open spec fn without_prefix(s: Seq<char>) -> Seq<char> {
    if s.len() >= 2 && s[0] == '0' && (s[1] == 'x' || s[1] == 'X') {
        s.subrange(2, s.len() as int)
    } else {
        s
    }
}

/// The number that a text writes in base 16, with or without a prefix.
pub open spec fn hex_value(s: Seq<char>) -> Option<nat> {
    unsigned_value(without_prefix(trimmed(s)), 16, u64::MAX as nat)
}

/// Reads a number in base 16, with or without a prefix.
pub fn parse_hex(s: &str) -> (r: Option<u64>)
    ensures
        match r {
            Some(n) => hex_value(s@) == Some(n as nat),
            None => hex_value(s@) is None,
        },
{
    let t = trim(&chars_of(s));
    let digits = if t.len() >= 2 && t[0] == '0' && (t[1] == 'x' || t[1] == 'X') {
        slice_chars(&t, 2, t.len())
    } else {
        t
    };
    parse_unsigned(&digits, 16, u64::MAX)
}

/// A number in base 16 is read back: with digits of either case, without a prefix and
/// with either prefix, and with white space around it.
pub proof fn law_hexadecimal_is_read_back(
    n: u64,
    digits: Seq<char>,
    before: Seq<char>,
    after: Seq<char>,
)
    requires
        in_either_case(digits, hexadecimal(n as nat)),
        all_space(before),
        all_space(after),
    ensures
        hex_value(before + digits + after) == Some(n as nat),
        hex_value(before + ("0x"@ + digits) + after) == Some(n as nat),
        hex_value(before + ("0X"@ + digits) + after) == Some(n as nat),
{
    let h = hexadecimal(n as nat);
    lemma_hexadecimal_text(n as nat);
    lemma_either_case(digits, h, 16, u64::MAX as nat);
    reveal_strlit("0x");
    reveal_strlit("0X");
    let s = "0x"@ + digits;
    let t = "0X"@ + digits;
    assert(digit_value(digits[0]) is Some);
    assert(digit_value(digits.last()) is Some);
    assert(digits.len() > 1 ==> digit_value(digits[1]) is Some);
    assert(s.last() == digits.last() && t.last() == digits.last());
    lemma_trimmed_around(before, digits, after);
    lemma_trimmed_around(before, s, after);
    lemma_trimmed_around(before, t, after);
    assert(without_prefix(s) =~= digits);
    assert(without_prefix(t) =~= digits);
    assert(without_prefix(digits) == digits);
}

/// The number of four bytes that a text writes.
pub open spec fn word_value(s: Seq<char>) -> Option<nat> {
    unsigned_value(s, 10, u32::MAX as nat)
}

/// Reads a number of four bytes.
pub fn parse_word(s: &str) -> (r: Option<u32>)
    ensures
        match r {
            Some(n) => word_value(s@) == Some(n as nat),
            None => word_value(s@) is None,
        },
{
    match parse_unsigned(&chars_of(s), 10, u32::MAX as u64) {
        Some(n) => Some(n as u32),
        None => None,
    }
}

/// The number of four bytes behind a flag.
pub open spec fn word_flag(args: Seq<Seq<char>>, name: Seq<char>) -> Option<u32> {
    match flag_value(args, name) {
        Some(v) => match word_value(v) {
            Some(n) => Some(n as u32),
            None => None,
        },
        None => None,
    }
}

/// The number in base 16 behind a flag.
pub open spec fn hex_flag(args: Seq<Seq<char>>, name: Seq<char>) -> Option<u64> {
    match flag_value(args, name) {
        Some(v) => match hex_value(v) {
            Some(n) => Some(n as u64),
            None => None,
        },
        None => None,
    }
}

/// The whole number behind a flag; `default` where there is none.
pub open spec fn size_flag(args: Seq<Seq<char>>, name: Seq<char>, default: nat) -> nat {
    match flag_value(args, name) {
        Some(v) => match size_value(trimmed(v)) {
            Some(n) => n,
            None => default,
        },
        None => default,
    }
}

fn read_word_flag(args: &Vec<String>, name: &str) -> (r: Option<u32>)
    ensures
        r == word_flag(texts(args@), name@),
{
    match flag(args, name) {
        Some(v) => parse_word(v.as_str()),
        None => None,
    }
}

fn read_hex_flag(args: &Vec<String>, name: &str) -> (r: Option<u64>)
    ensures
        r == hex_flag(texts(args@), name@),
{
    match flag(args, name) {
        Some(v) => parse_hex(v.as_str()),
        None => None,
    }
}

fn read_size_flag(args: &Vec<String>, name: &str, default: usize) -> (r: usize)
    ensures
        r == size_flag(texts(args@), name@, default as nat),
{
    match flag(args, name) {
        Some(v) => match parse_unsigned(&trim(&chars_of(v.as_str())), 10, usize::MAX as u64) {
            Some(n) => n as usize,
            None => default,
        },
        None => default,
    }
}

/// Whether any setting of the generator is given on the command line.
pub open spec fn has_settings(args: Seq<Seq<char>>) -> bool {
    ||| flag_value(args, "--max-resolution"@) is Some
    ||| flag_value(args, "--stop-at"@) is Some
    ||| flag_value(args, "--random-samples"@) is Some
    ||| flag_value(args, "--mutated-samples"@) is Some
    ||| flag_value(args, "--posterize-levels"@) is Some
    ||| flag_value(args, "--save-every"@) is Some
    ||| flag_value(args, "--background"@) is Some
    ||| flag_value(args, "--opacity"@) is Some
    ||| flag_value(args, "--shapes"@) is Some
}

/// How opaque the shapes are, from 1 to 255.
pub open spec fn opacity_flag(args: Seq<Seq<char>>) -> u8 {
    let n = match flag_value(args, "--opacity"@) {
        Some(v) => match word_value(trimmed(v)) {
            Some(n) => n,
            None => 255,
        },
        None => 255,
    };
    if n < 1 {
        1
    } else if n > 255 {
        255
    } else {
        n as u8
    }
}

/// The settings of the generator on the command line.
pub open spec fn profile_of_args(args: Seq<Seq<char>>) -> ProfileView {
    ProfileView {
        max_resolution: low_bits(size_flag(args, "--max-resolution"@, 1000)),
        random_samples: at_least_one(size_flag(args, "--random-samples"@, 1500)),
        mutated_samples: size_flag(args, "--mutated-samples"@, 600) as usize,
        posterize_levels: levels(size_flag(args, "--posterize-levels"@, 256)),
        stop_at: at_least_one(size_flag(args, "--stop-at"@, 3000)),
        save_every: at_least_one(size_flag(args, "--save-every"@, 50)),
        save_at: Seq::empty(),
        transparent_bg: match flag_value(args, "--background"@) {
            Some(v) => ascii_lowered(trimmed(v)) == ascii_lowered("transparent"@),
            None => false,
        },
        shape_alpha: opacity_flag(args),
        shape_mode: match flag_value(args, "--shapes"@) {
            Some(v) => if v == "rect"@ {
                1
            } else if v == "mixed"@ {
                2
            } else {
                0
            },
            None => 0,
        },
    }
}

/// Reads the settings of the generator.
pub fn profile_from_args(args: &Vec<String>) -> (r: Profile)
    ensures
        r@ == profile_of_args(texts(args@)),
        usable(r@),
{
    let transparent_bg = match flag(args, "--background") {
        Some(v) => same_ignoring_case(
            &trim(&chars_of(v.as_str())),
            &chars_of("transparent"),
        ),
        None => false,
    };
    let opacity: u64 = match flag(args, "--opacity") {
        Some(v) => match parse_unsigned(&trim(&chars_of(v.as_str())), 10, u32::MAX as u64) {
            Some(n) => n,
            None => 255,
        },
        None => 255,
    };
    let shape_alpha: u8 = if opacity < 1 {
        1
    } else if opacity > 255 {
        255
    } else {
        opacity as u8
    };
    let shape_mode: u8 = match flag(args, "--shapes") {
        Some(v) => if same_text(v.as_str(), "rect") {
            1
        } else if same_text(v.as_str(), "mixed") {
            2
        } else {
            0
        },
        None => 0,
    };
    Profile {
        max_resolution: truncate(read_size_flag(args, "--max-resolution", 1000)),
        random_samples: raise(read_size_flag(args, "--random-samples", 1500)),
        mutated_samples: read_size_flag(args, "--mutated-samples", 600),
        posterize_levels: hold_levels(read_size_flag(args, "--posterize-levels", 256)),
        stop_at: raise(read_size_flag(args, "--stop-at", 3000)),
        save_every: raise(read_size_flag(args, "--save-every", 50)),
        save_at: Vec::new(),
        transparent_bg,
        shape_alpha,
        shape_mode,
    }
}

/// Decides `has_settings`.
fn any_settings(args: &Vec<String>) -> (r: bool)
    ensures
        r == has_settings(texts(args@)),
{
    flag(args, "--max-resolution").is_some() || flag(args, "--stop-at").is_some() || flag(
        args,
        "--random-samples",
    ).is_some() || flag(args, "--mutated-samples").is_some() || flag(
        args,
        "--posterize-levels",
    ).is_some() || flag(args, "--save-every").is_some() || flag(args, "--background").is_some()
        || flag(args, "--opacity").is_some() || flag(args, "--shapes").is_some()
}

/// What the command line asks for.
#[derive(Debug)]
pub enum Command {
    /// The window.
    Window,
    /// A generation; without settings, by a settings file that the input names.
    Generate { image: String, profile: Option<Profile> },
    /// An import.
    Import {
        json: String,
        game: Option<String>,
        pid: Option<u32>,
        count_address: Option<u64>,
        table_address: Option<u64>,
        expected_count: Option<u32>,
        edge_mask: bool,
    },
    /// A diagnosis.
    Diagnose { game: Option<String>, pid: Option<u32> },
    /// A search for the layers.
    AutoLocate { game: Option<String>, pid: Option<u32>, layer_count: u32 },
    /// A command with something missing; this is how it is used.
    Usage(&'static str),
    /// No command.
    Unknown(String),
}

/// What the command line asks for, its texts as characters.
pub enum CommandView {
    Window,
    Generate { image: Seq<char>, profile: Option<ProfileView> },
    Import {
        json: Seq<char>,
        game: Option<Seq<char>>,
        pid: Option<u32>,
        count_address: Option<u64>,
        table_address: Option<u64>,
        expected_count: Option<u32>,
        edge_mask: bool,
    },
    Diagnose { game: Option<Seq<char>>, pid: Option<u32> },
    AutoLocate { game: Option<Seq<char>>, pid: Option<u32>, layer_count: u32 },
    Usage(Seq<char>),
    Unknown(Seq<char>),
}

/// The characters of an optional text.
pub open spec fn characters(s: Option<String>) -> Option<Seq<char>> {
    match s {
        Some(t) => Some(t@),
        None => None,
    }
}

impl View for Command {
    type V = CommandView;

    open spec fn view(&self) -> CommandView {
        match *self {
            Command::Window => CommandView::Window,
            Command::Generate { image, profile } => CommandView::Generate {
                image: image@,
                profile: match profile {
                    Some(p) => Some(p@),
                    None => None,
                },
            },
            Command::Import {
                json,
                game,
                pid,
                count_address,
                table_address,
                expected_count,
                edge_mask,
            } => CommandView::Import {
                json: json@,
                game: characters(game),
                pid,
                count_address,
                table_address,
                expected_count,
                edge_mask,
            },
            Command::Diagnose { game, pid } => CommandView::Diagnose {
                game: characters(game),
                pid,
            },
            Command::AutoLocate { game, pid, layer_count } => CommandView::AutoLocate {
                game: characters(game),
                pid,
                layer_count,
            },
            Command::Usage(s) => CommandView::Usage(s@),
            Command::Unknown(s) => CommandView::Unknown(s@),
        }
    }
}

/// What the arguments ask for; the first is the name of the program.
pub open spec fn command_of(args: Seq<Seq<char>>) -> CommandView {
    let word = if args.len() > 1 {
        args[1]
    } else {
        ""@
    };
    if word == "generate"@ {
        if args.len() > 2 {
            CommandView::Generate {
                image: args[2],
                profile: if has_settings(args) {
                    Some(profile_of_args(args))
                } else {
                    None
                },
            }
        } else {
            CommandView::Usage(
                "usage: forza-painter generate <image> [--max-resolution N --stop-at N --random-samples N --mutated-samples N --posterize-levels N --save-every N]"@,
            )
        }
    } else if word == "import"@ {
        if args.len() > 2 {
            CommandView::Import {
                json: args[2],
                game: flag_value(args, "--game"@),
                pid: word_flag(args, "--pid"@),
                count_address: hex_flag(args, "--count-address"@),
                table_address: hex_flag(args, "--table-address"@),
                expected_count: word_flag(args, "--layer-count"@),
                edge_mask: args.contains("--edge-mask"@),
            }
        } else {
            CommandView::Usage(
                "usage: forza-painter import <geometry.json> [--game fh6] [--pid N]"@,
            )
        }
    } else if word == "diagnose"@ {
        CommandView::Diagnose {
            game: flag_value(args, "--game"@),
            pid: word_flag(args, "--pid"@),
        }
    } else if word == "auto-locate"@ {
        match word_flag(args, "--layer-count"@) {
            Some(n) => if n == 0 {
                CommandView::Usage("usage: forza-painter auto-locate --layer-count K"@)
            } else {
                CommandView::AutoLocate {
                    game: flag_value(args, "--game"@),
                    pid: word_flag(args, "--pid"@),
                    layer_count: n,
                }
            },
            None => CommandView::Usage("usage: forza-painter auto-locate --layer-count K"@),
        }
    } else if word == ""@ {
        CommandView::Window
    } else {
        CommandView::Unknown(word)
    }
}

/// Reads the arguments; the first is the name of the program.
pub fn parse_command(args: &Vec<String>) -> (r: Command)
    ensures
        r@ == command_of(texts(args@)),
        r matches Command::Generate { image, profile } ==> (profile matches Some(p) ==> usable(p@)),
{
    let ghost all = texts(args@);
    proof {
        if args@.len() > 1 {
            assert(all[1] == args@[1]@);
        }
        if args@.len() > 2 {
            assert(all[2] == args@[2]@);
        }
    }
    let word = if args.len() > 1 {
        args[1].as_str()
    } else {
        ""
    };
    if same_text(word, "generate") {
        if args.len() > 2 {
            let profile = if any_settings(args) {
                Some(profile_from_args(args))
            } else {
                None
            };
            Command::Generate { image: args[2].clone(), profile }
        } else {
            Command::Usage(
                "usage: forza-painter generate <image> [--max-resolution N --stop-at N --random-samples N --mutated-samples N --posterize-levels N --save-every N]",
            )
        }
    } else if same_text(word, "import") {
        if args.len() > 2 {
            Command::Import {
                json: args[2].clone(),
                game: flag(args, "--game"),
                pid: read_word_flag(args, "--pid"),
                count_address: read_hex_flag(args, "--count-address"),
                table_address: read_hex_flag(args, "--table-address"),
                expected_count: read_word_flag(args, "--layer-count"),
                edge_mask: has_argument(args, "--edge-mask"),
            }
        } else {
            Command::Usage("usage: forza-painter import <geometry.json> [--game fh6] [--pid N]")
        }
    } else if same_text(word, "diagnose") {
        Command::Diagnose { game: flag(args, "--game"), pid: read_word_flag(args, "--pid") }
    } else if same_text(word, "auto-locate") {
        match read_word_flag(args, "--layer-count") {
            Some(n) => if n == 0 {
                Command::Usage("usage: forza-painter auto-locate --layer-count K")
            } else {
                Command::AutoLocate {
                    game: flag(args, "--game"),
                    pid: read_word_flag(args, "--pid"),
                    layer_count: n,
                }
            },
            None => Command::Usage("usage: forza-painter auto-locate --layer-count K"),
        }
    } else if same_text(word, "") {
        Command::Window
    } else {
        Command::Unknown(word.to_string())
    }
}

} // verus!
