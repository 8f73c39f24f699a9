//! Characters and numbers: how text is written and how it is read.

use vstd::prelude::*;
use vstd::string::*;

verus! {

/// `String::push`: one character is added at the end, nothing else changes.
pub assume_specification[ String::push ](s: &mut String, c: char)
    ensures
        final(s)@ == old(s)@.push(c),
;

/// The digit `d` (below 16) as a lower-case character.
pub open spec fn digit_char(d: nat) -> char {
    if d < 10 {
        (48 + d) as char
    } else {
        (87 + d) as char
    }
}

/// `n` in base 10, without leading zeros.
pub open spec fn decimal(n: nat) -> Seq<char>
    decreases n,
{
    if n < 10 {
        seq![digit_char(n)]
    } else {
        decimal(n / 10).push(digit_char(n % 10))
    }
}

/// `n` in base 10 with a minus sign where it is negative.
pub open spec fn signed_decimal(n: int) -> Seq<char> {
    if n < 0 {
        seq!['-'] + decimal((-n) as nat)
    } else {
        decimal(n as nat)
    }
}

/// `n` in base 16, lower case, without leading zeros.
pub open spec fn hexadecimal(n: nat) -> Seq<char>
    decreases n,
{
    if n < 16 {
        seq![digit_char(n)]
    } else {
        hexadecimal(n / 16).push(digit_char(n % 16))
    }
}

/// A byte as exactly two hexadecimal digits.
pub open spec fn byte_text(b: u8) -> Seq<char> {
    seq![digit_char((b / 16) as nat), digit_char((b % 16) as nat)]
}

/// Writes the digit `d`.
fn digit(d: u8) -> (c: char)
    requires
        d < 16,
    ensures
        c == digit_char(d as nat),
{
    if d < 10 {
        (48 + d) as char
    } else {
        (87 + d) as char
    }
}

/// Appends `n` in base 10.
pub fn push_decimal(s: &mut String, n: u64)
    ensures
        final(s)@ == old(s)@ + decimal(n as nat),
    decreases n,
{
    if n >= 10 {
        push_decimal(s, n / 10);
    }
    s.push(digit((n % 10) as u8));
}

/// Appends `n` in base 10 with its sign.
pub fn push_signed(s: &mut String, n: i64)
    ensures
        final(s)@ == old(s)@ + signed_decimal(n as int),
{
    if n < 0 {
        s.push('-');
        if n == i64::MIN {
            push_decimal(s, 9223372036854775808);
        } else {
            push_decimal(s, (-n) as u64);
        }
    } else {
        push_decimal(s, n as u64);
    }
}

/// Appends `n` in base 16.
pub fn push_hex(s: &mut String, n: u64)
    ensures
        final(s)@ == old(s)@ + hexadecimal(n as nat),
    decreases n,
{
    if n >= 16 {
        push_hex(s, n / 16);
    }
    s.push(digit((n % 16) as u8));
}

/// Appends the two digits of a byte.
pub fn push_byte(s: &mut String, b: u8)
    ensures
        final(s)@ == old(s)@ + byte_text(b),
{
    s.push(digit(b / 16));
    s.push(digit(b % 16));
}

/// `n` in base 10 as a string of its own.
pub fn decimal_string(n: u64) -> (r: String)
    ensures
        r@ == decimal(n as nat),
{
    let mut s = String::new();
    push_decimal(&mut s, n);
    s
}

/// The characters of a string.
pub fn chars_of(s: &str) -> (r: Vec<char>)
    ensures
        r@ == s@,
{
    let mut out: Vec<char> = Vec::new();
    for c in it: s.chars()
        invariant
            out@ == s@.take(it.index() as int),
            it.seq() == s@,
    {
        out.push(c);
        proof {
            assert(s@.take(it.index() + 1) =~= s@.take(it.index() as int).push(c));
        }
    }
    assert(s@.take(s@.len() as int) =~= s@);
    out
}

/// The string that holds the characters `v`.
pub fn string_of(v: &Vec<char>) -> (r: String)
    ensures
        r@ == v@,
{
    let mut s = String::new();
    for i in 0..v.len()
        invariant
            s@ == v@.take(i as int),
    {
        s.push(v[i]);
        assert(v@.take(i + 1) =~= v@.take(i as int).push(v@[i as int]));
    }
    assert(v@.take(v@.len() as int) =~= v@);
    s
}

/// Whether two character sequences are the same.
pub fn same_chars(a: &Vec<char>, b: &Vec<char>) -> (r: bool)
    ensures
        r == (a@ == b@),
{
    if a.len() != b.len() {
        return false;
    }
    for i in 0..a.len()
        invariant
            a.len() == b.len(),
            forall|j: int| 0 <= j < i ==> a@[j] == b@[j],
    {
        if a[i] != b[i] {
            return false;
        }
    }
    assert(a@ =~= b@);
    true
}

/// Whether two strings are the same.
pub fn same_text(a: &str, b: &str) -> (r: bool)
    ensures
        r == (a@ == b@),
{
    same_chars(&chars_of(a), &chars_of(b))
}

/// An ASCII letter in lower case; every other character unchanged.
pub open spec fn ascii_lower(c: char) -> char {
    if 'A' <= c <= 'Z' {
        (c as u32 + 32) as char
    } else {
        c
    }
}

/// Every ASCII letter of `s` in lower case.
pub open spec fn ascii_lowered(s: Seq<char>) -> Seq<char> {
    s.map_values(|c: char| ascii_lower(c))
}

/// Whether every character of `s` is ASCII.
pub open spec fn all_ascii(s: Seq<char>) -> bool {
    forall|i: int| 0 <= i < s.len() ==> #[trigger] s[i] < '\u{80}'
}

/// What `str::to_lowercase` makes of a text.
pub uninterp spec fn lowercase(s: Seq<char>) -> Seq<char>;

/// `str::to_lowercase`: the Unicode lower case of the text, which depends on
/// the text alone. On a text of ASCII characters only the letters `A` to `Z`
/// change, each to its lower-case letter.
#[verifier::external_body]
pub(crate) fn to_lowercase(s: &str) -> (r: String)
    ensures
        r@ == lowercase(s@),
        all_ascii(s@) ==> r@ == ascii_lowered(s@),
{
    s.to_lowercase()
}

fn lower(c: char) -> (r: char)
    ensures
        r == ascii_lower(c),
{
    if 'A' <= c && c <= 'Z' {
        (c as u8 + 32) as char
    } else {
        c
    }
}

/// `str::eq_ignore_ascii_case` on characters.
pub fn same_ignoring_case(a: &Vec<char>, b: &Vec<char>) -> (r: bool)
    ensures
        r == (ascii_lowered(a@) == ascii_lowered(b@)),
{
    if a.len() != b.len() {
        assert(ascii_lowered(a@).len() != ascii_lowered(b@).len());
        return false;
    }
    for i in 0..a.len()
        invariant
            a.len() == b.len(),
            forall|j: int| 0 <= j < i ==> ascii_lower(a@[j]) == ascii_lower(b@[j]),
    {
        if lower(a[i]) != lower(b[i]) {
            assert(ascii_lowered(a@)[i as int] != ascii_lowered(b@)[i as int]);
            return false;
        }
    }
    assert(ascii_lowered(a@) =~= ascii_lowered(b@));
    true
}

/// The characters with the Unicode property White_Space.
pub open spec fn is_space(c: char) -> bool {
    ||| '\u{9}' <= c <= '\u{d}'
    ||| c == ' '
    ||| c == '\u{85}'
    ||| c == '\u{a0}'
    ||| c == '\u{1680}'
    ||| '\u{2000}' <= c <= '\u{200a}'
    ||| c == '\u{2028}'
    ||| c == '\u{2029}'
    ||| c == '\u{202f}'
    ||| c == '\u{205f}'
    ||| c == '\u{3000}'
}

fn space(c: char) -> (r: bool)
    ensures
        r == is_space(c),
{
    ('\u{9}' <= c && c <= '\u{d}') || c == ' ' || c == '\u{85}' || c == '\u{a0}' || c == '\u{1680}'
        || ('\u{2000}' <= c && c <= '\u{200a}') || c == '\u{2028}' || c == '\u{2029}' || c
        == '\u{202f}' || c == '\u{205f}' || c == '\u{3000}'
}

/// `s` without the white space in front.
pub open spec fn trimmed_start(s: Seq<char>) -> Seq<char>
    decreases s.len(),
{
    if s.len() > 0 && is_space(s[0]) {
        trimmed_start(s.drop_first())
    } else {
        s
    }
}

/// `s` without the white space at the end.
pub open spec fn trimmed_end(s: Seq<char>) -> Seq<char>
    decreases s.len(),
{
    if s.len() > 0 && is_space(s.last()) {
        trimmed_end(s.drop_last())
    } else {
        s
    }
}

/// `s` without the white space at both ends.
pub open spec fn trimmed(s: Seq<char>) -> Seq<char> {
    trimmed_end(trimmed_start(s))
}

/// The characters from `from` on and before `to`.
pub fn slice_chars(v: &Vec<char>, from: usize, to: usize) -> (r: Vec<char>)
    requires
        from <= to <= v.len(),
    ensures
        r@ == v@.subrange(from as int, to as int),
{
    let mut out: Vec<char> = Vec::new();
    for i in from..to
        invariant
            from <= i <= to <= v.len(),
            out@ == v@.subrange(from as int, i as int),
    {
        out.push(v[i]);
        assert(v@.subrange(from as int, i + 1) =~= v@.subrange(from as int, i as int).push(
            v@[i as int],
        ));
    }
    out
}

/// `str::trim` on characters.
pub fn trim(v: &Vec<char>) -> (r: Vec<char>)
    ensures
        r@ == trimmed(v@),
{
    let mut from: usize = 0;
    assert(v@.subrange(0, v@.len() as int) =~= v@);
    while from < v.len() && space(v[from])
        invariant
            from <= v.len(),
            trimmed_start(v@) == trimmed_start(v@.subrange(from as int, v@.len() as int)),
        decreases v.len() - from,
    {
        assert(v@.subrange(from as int, v@.len() as int).drop_first() =~= v@.subrange(
            from + 1,
            v@.len() as int,
        ));
        from = from + 1;
    }
    assert(trimmed_start(v@) == v@.subrange(from as int, v@.len() as int));
    let mut to: usize = v.len();
    while to > from && space(v[to - 1])
        invariant
            from <= to <= v.len(),
            trimmed(v@) == trimmed_end(v@.subrange(from as int, to as int)),
        decreases to,
    {
        assert(v@.subrange(from as int, to as int).drop_last() =~= v@.subrange(
            from as int,
            to - 1,
        ));
        to = to - 1;
    }
    slice_chars(v, from, to)
}

/// Where `c` first stands in `s`, or the length of `s`.
pub open spec fn first_at(s: Seq<char>, c: char) -> int
    decreases s.len(),
{
    if s.len() == 0 || s[0] == c {
        0
    } else {
        1 + first_at(s.drop_first(), c)
    }
}

/// What lies within `s`: a position up to its length.
pub proof fn lemma_first_at(s: Seq<char>, c: char)
    ensures
        0 <= first_at(s, c) <= s.len(),
        first_at(s, c) < s.len() ==> s[first_at(s, c)] == c,
        forall|i: int| 0 <= i < first_at(s, c) ==> s[i] != c,
    decreases s.len(),
{
    if s.len() > 0 && s[0] != c {
        lemma_first_at(s.drop_first(), c);
        assert forall|i: int| 0 <= i < first_at(s, c) implies s[i] != c by {
            if i > 0 {
                assert(s.drop_first()[i - 1] == s[i]);
            }
        }
    }
}

/// The position that is free of `c` before it and holds `c`, or is the end.
pub proof fn lemma_first_at_is(s: Seq<char>, c: char, k: int)
    requires
        0 <= k <= s.len(),
        k < s.len() ==> s[k] == c,
        forall|i: int| 0 <= i < k ==> s[i] != c,
    ensures
        first_at(s, c) == k,
{
    lemma_first_at(s, c);
    let f = first_at(s, c);
    if f < k {
        assert(s[f] == c);
    }
    if k < f {
        assert(s[k] == c);
    }
}

/// Finds the first `c`.
pub fn find_char(v: &Vec<char>, c: char) -> (r: usize)
    ensures
        r == first_at(v@, c),
        r <= v.len(),
{
    let mut i: usize = 0;
    while i < v.len() && v[i] != c
        invariant
            i <= v.len(),
            forall|j: int| 0 <= j < i ==> v@[j] != c,
        decreases v.len() - i,
    {
        i = i + 1;
    }
    proof {
        lemma_first_at_is(v@, c, i as int);
    }
    i
}

/// The pieces of `s` between the separators `c`: `str::split`.
pub open spec fn split(s: Seq<char>, c: char) -> Seq<Seq<char>>
    decreases s.len(),
{
    if 0 <= first_at(s, c) < s.len() {
        seq![s.take(first_at(s, c))] + split(s.skip(first_at(s, c) + 1), c)
    } else {
        seq![s]
    }
}

/// The pieces of two texts with a separator between them are those of the first and
/// those of the second.
pub proof fn lemma_split_joined(a: Seq<char>, b: Seq<char>, c: char)
    ensures
        split(a + seq![c] + b, c) == split(a, c) + split(b, c),
    decreases a.len(),
{
    let all = a + seq![c] + b;
    let k = first_at(a, c);
    lemma_first_at(a, c);
    assert forall|i: int| 0 <= i < k implies all[i] != c by {
        assert(all[i] == a[i]);
    }
    lemma_first_at_is(all, c, k);
    assert(all.take(k) =~= a.take(k));
    if k < a.len() {
        lemma_split_joined(a.skip(k + 1), b, c);
        assert(all.skip(k + 1) =~= a.skip(k + 1) + seq![c] + b);
        assert(seq![a.take(k)] + (split(a.skip(k + 1), c) + split(b, c)) =~= (seq![a.take(k)]
            + split(a.skip(k + 1), c)) + split(b, c));
    } else {
        assert(a.take(k) =~= a);
        assert(all.skip(k + 1) =~= b);
    }
}

/// The pieces of a vector of characters, each as a sequence.
pub open spec fn pieces(v: Seq<Vec<char>>) -> Seq<Seq<char>> {
    v.map_values(|p: Vec<char>| p@)
}

/// `str::split` on characters.
pub fn split_chars(v: &Vec<char>, c: char) -> (r: Vec<Vec<char>>)
    ensures
        pieces(r@) == split(v@, c),
{
    let mut out: Vec<Vec<char>> = Vec::new();
    let mut rest = slice_chars(v, 0, v.len());
    assert(rest@ =~= v@);
    loop
        invariant
            pieces(out@) + split(rest@, c) == split(v@, c),
        decreases rest@.len(),
    {
        let k = find_char(&rest, c);
        proof {
            lemma_first_at(rest@, c);
        }
        if k == rest.len() {
            let ghost before = out@;
            let ghost last = rest@;
            out.push(rest);
            assert(pieces(out@) =~= pieces(before) + seq![last]);
            return out;
        }
        let head = slice_chars(&rest, 0, k);
        let tail = slice_chars(&rest, k + 1, rest.len());
        proof {
            assert(head@ =~= rest@.take(k as int));
            assert(tail@ =~= rest@.skip(k + 1));
        }
        let ghost before = out@;
        out.push(head);
        proof {
            assert(pieces(out@) =~= pieces(before) + seq![head@]);
            assert(pieces(before) + (seq![head@] + split(tail@, c)) =~= (pieces(before) + seq![
                head@,
            ]) + split(tail@, c));
        }
        rest = tail;
    }
}

/// The value of a digit in base 16 or below, where `c` is one.
pub open spec fn digit_value(c: char) -> Option<nat> {
    if '0' <= c <= '9' {
        Some((c as int - '0' as int) as nat)
    } else if 'a' <= c <= 'f' {
        Some((c as int - 'a' as int + 10) as nat)
    } else if 'A' <= c <= 'F' {
        Some((c as int - 'A' as int + 10) as nat)
    } else {
        None
    }
}

/// The number that the digits of `s` write in base `radix`, where all of `s`
/// are such digits.
pub open spec fn digits_value(s: Seq<char>, radix: nat) -> Option<nat>
    decreases s.len(),
{
    if s.len() == 0 {
        Some(0)
    } else {
        match (digits_value(s.drop_last(), radix), digit_value(s.last())) {
            (Some(high), Some(low)) => if low < radix {
                Some(high * radix + low)
            } else {
                None
            },
            _ => None,
        }
    }
}

/// What the standard unsigned parsers accept: an optional `+`, at least one
/// digit, and a value up to `max`.
pub open spec fn unsigned_value(s: Seq<char>, radix: nat, max: nat) -> Option<nat> {
    let digits = if s.len() > 0 && s[0] == '+' {
        s.drop_first()
    } else {
        s
    };
    if digits.len() == 0 {
        None
    } else {
        match digits_value(digits, radix) {
            Some(n) => if n <= max {
                Some(n)
            } else {
                None
            },
            None => None,
        }
    }
}

fn value_of(c: char) -> (r: Option<u64>)
    ensures
        match r {
            Some(d) => digit_value(c) == Some(d as nat) && d < 16,
            None => digit_value(c) is None,
        },
{
    if '0' <= c && c <= '9' {
        Some((c as u8 - 48) as u64)
    } else if 'a' <= c && c <= 'f' {
        Some((c as u8 - 87) as u64)
    } else if 'A' <= c && c <= 'F' {
        Some((c as u8 - 55) as u64)
    } else {
        None
    }
}

/// No more digits make a number smaller, or a text that is no number one.
proof fn lemma_digits_grow(s: Seq<char>, radix: nat, k: int)
    requires
        0 <= k <= s.len(),
        radix >= 1,
        digits_value(s, radix) is Some,
    ensures
        digits_value(s.take(k), radix) is Some,
        digits_value(s.take(k), radix).unwrap() <= digits_value(s, radix).unwrap(),
    decreases s.len() - k,
{
    if k == s.len() {
        assert(s.take(k) =~= s);
    } else {
        lemma_digits_grow(s, radix, k + 1);
        assert(s.take(k + 1).drop_last() =~= s.take(k));
        let high = digits_value(s.take(k), radix).unwrap();
        assert(high <= high * radix) by (nonlinear_arith)
            requires
                radix >= 1,
        ;
    }
}

/// The standard unsigned parsers (`from_str_radix` and `parse`) with an upper
/// bound on the value.
pub fn parse_unsigned(v: &Vec<char>, radix: u64, max: u64) -> (r: Option<u64>)
    requires
        2 <= radix <= 16,
    ensures
        match r {
            Some(n) => unsigned_value(v@, radix as nat, max as nat) == Some(n as nat),
            None => unsigned_value(v@, radix as nat, max as nat) is None,
        },
{
    let from: usize = if v.len() > 0 && v[0] == '+' {
        1
    } else {
        0
    };
    if from == v.len() {
        return None;
    }
    let ghost digits = v@.subrange(from as int, v@.len() as int);
    proof {
        if from == 1 {
            assert(digits =~= v@.drop_first());
        } else {
            assert(digits =~= v@);
        }
        assert(digits.take(0) =~= Seq::<char>::empty());
    }
    let mut n: u64 = 0;
    for i in from..v.len()
        invariant
            2 <= radix <= 16,
            from <= 1,
            digits == v@.subrange(from as int, v@.len() as int),
            digits.len() == v@.len() - from,
            digits.len() > 0,
            n <= max || i == from,
            digits_value(digits.take(i - from), radix as nat) == Some(n as nat),
            unsigned_value(v@, radix as nat, max as nat) == (match digits_value(
                digits,
                radix as nat,
            ) {
                Some(k) => if k <= max {
                    Some(k)
                } else {
                    None
                },
                None => None,
            }),
    {
        let ghost upto = digits.take(i - from + 1);
        proof {
            assert(upto.drop_last() =~= digits.take(i - from));
            assert(upto.last() == v@[i as int]);
            if digits_value(digits, radix as nat) is Some {
                lemma_digits_grow(digits, radix as nat, i - from + 1);
            }
        }
        let d = match value_of(v[i]) {
            Some(d) => d,
            None => {
                return None;
            },
        };
        if d >= radix {
            return None;
        }
        assert((n as u128) * (radix as u128) <= 0xffff_ffff_ffff_ffff * 16) by (nonlinear_arith)
            requires
                n <= 0xffff_ffff_ffff_ffff,
                radix <= 16,
        ;
        let wide: u128 = (n as u128) * (radix as u128) + (d as u128);
        assert(n as nat * radix as nat + d as nat == wide);
        if wide > max as u128 {
            return None;
        }
        n = wide as u64;
    }
    proof {
        assert(digits.take(digits.len() as int) =~= digits);
    }
    Some(n)
}

/// The digits of a number in base 10 write that number, and no white space stands
/// around them.
pub proof fn lemma_decimal_text(n: nat)
    ensures
        decimal(n).len() > 0,
        '0' <= decimal(n)[0] <= '9',
        '0' <= decimal(n).last() <= '9',
        trimmed(decimal(n)) == decimal(n),
        digits_value(decimal(n), 10) == Some(n),
        forall|max: nat| n <= max ==> #[trigger] unsigned_value(decimal(n), 10, max) == Some(n),
    decreases n,
{
    reveal_with_fuel(digits_value, 2);
    if n >= 10 {
        lemma_decimal_text(n / 10);
        assert(decimal(n).drop_last() =~= decimal(n / 10));
    } else {
        assert(decimal(n).drop_last() =~= Seq::<char>::empty());
    }
}

/// The digits of a number in base 16 write that number, no white space stands around
/// them, and no `x` among them.
pub proof fn lemma_hexadecimal_text(n: nat)
    ensures
        hexadecimal(n).len() > 0,
        forall|i: int|
            0 <= i < hexadecimal(n).len() ==> digit_value(#[trigger] hexadecimal(n)[i]) is Some,
        trimmed(hexadecimal(n)) == hexadecimal(n),
        digits_value(hexadecimal(n), 16) == Some(n),
        forall|max: nat| n <= max ==> #[trigger] unsigned_value(hexadecimal(n), 16, max) == Some(n),
    decreases n,
{
    reveal_with_fuel(digits_value, 2);
    let h = hexadecimal(n);
    if n >= 16 {
        lemma_hexadecimal_text(n / 16);
        assert(h.drop_last() =~= hexadecimal(n / 16));
    } else {
        assert(h.drop_last() =~= Seq::<char>::empty());
    }
    assert(digit_value(digit_char(n % 16)) == Some(n % 16));
    assert(h.last() == digit_char(n % 16));
    assert forall|i: int| 0 <= i < h.len() implies digit_value(#[trigger] h[i]) is Some by {
        if i < h.len() - 1 {
            assert(hexadecimal(n / 16)[i] == h[i]);
        }
    }
    assert(digit_value(h[0]) is Some);
    assert(digit_value(h[h.len() - 1]) is Some);
}

/// A digit in upper case.
pub open spec fn upper_digit(c: char) -> char {
    if 'a' <= c <= 'f' {
        (c as int - 32) as char
    } else {
        c
    }
}

/// Whether `s` are the digits `t`, each in lower or in upper case.
pub open spec fn in_either_case(s: Seq<char>, t: Seq<char>) -> bool {
    &&& s.len() == t.len()
    &&& forall|i: int|
        0 <= i < s.len() ==> #[trigger] s[i] == t[i] || s[i] == upper_digit(t[i])
}

/// Digits write the same number in either case.
pub proof fn lemma_either_case(s: Seq<char>, t: Seq<char>, radix: nat, max: nat)
    requires
        in_either_case(s, t),
        forall|i: int| 0 <= i < t.len() ==> digit_value(#[trigger] t[i]) is Some,
    ensures
        forall|i: int| 0 <= i < s.len() ==> digit_value(#[trigger] s[i]) == digit_value(t[i]),
        digits_value(s, radix) == digits_value(t, radix),
        unsigned_value(s, radix, max) == unsigned_value(t, radix, max),
    decreases s.len(),
{
    assert forall|i: int| 0 <= i < s.len() implies digit_value(#[trigger] s[i]) == digit_value(
        t[i],
    ) by {
        assert(digit_value(t[i]) is Some);
    }
    if s.len() > 0 {
        let front = t.drop_last();
        assert forall|i: int| 0 <= i < front.len() implies digit_value(
            #[trigger] front[i],
        ) is Some by {
            assert(front[i] == t[i]);
        }
        lemma_either_case(s.drop_last(), front, radix, max);
        assert(digit_value(s[s.len() - 1]) == digit_value(t[t.len() - 1]));
        assert(digit_value(s[0]) is Some && digit_value(t[0]) is Some);
    }
}

/// Whether a text is white space only.
pub open spec fn all_space(s: Seq<char>) -> bool {
    forall|i: int| 0 <= i < s.len() ==> is_space(#[trigger] s[i])
}

/// White space around a text is taken off.
pub proof fn lemma_trimmed_around(before: Seq<char>, s: Seq<char>, after: Seq<char>)
    requires
        all_space(before),
        all_space(after),
        s.len() > 0,
        !is_space(s[0]),
        !is_space(s.last()),
    ensures
        trimmed(before + s + after) == s,
    decreases before.len() + after.len(),
{
    let all = before + s + after;
    if before.len() > 0 {
        assert(all.drop_first() =~= before.drop_first() + s + after);
        assert(is_space(all[0])) by {
            assert(all[0] == before[0]);
        }
        lemma_trimmed_around(before.drop_first(), s, after);
    } else {
        assert(all =~= s + after);
        assert(all[0] == s[0]);
        assert(trimmed_start(all) == all);
        if after.len() > 0 {
            assert(all.last() == after.last());
            assert(is_space(after[after.len() - 1]));
            assert(all.drop_last() =~= before + s + after.drop_last());
            let fewer = before + s + after.drop_last();
            assert(fewer[0] == s[0]);
            assert(trimmed_start(fewer) == fewer);
            lemma_trimmed_around(before, s, after.drop_last());
        } else {
            assert(all =~= s);
        }
    }
}

} // verus!
