//! Strings as sequences of characters.
//!
//! Everything that takes text apart or puts it together goes through here:
//! character classes, trimming, ordering, numerals, substring search and
//! padding, each stated over `Seq<char>`.

use vstd::prelude::*;
use vstd::string::*;

verus! {

broadcast use vstd::string::group_string_axioms;

/// `String::push` appends one character and leaves the rest of the string as
/// it was.
pub assume_specification[ String::push ](s: &mut String, c: char)
    ensures
        final(s)@ == old(s)@.push(c),
;

/// The characters of each of several strings.
pub open spec fn texts(strings: Seq<String>) -> Seq<Seq<char>> {
    strings.map_values(|s: String| s@)
}

/// The characters of an optional string.
pub open spec fn text_of(string: Option<String>) -> Option<Seq<char>> {
    match string {
        Some(s) => Some(s@),
        None => None,
    }
}

/// The characters of a string, in order.
pub fn chars_of(text: &str) -> (r: Vec<char>)
    ensures
        r@ == text@,
{
    let mut out: Vec<char> = Vec::new();
    for c in it: text.chars()
        invariant
            it.seq() == text@,
            out@ == text@.take(it.index() as int),
    {
        out.push(c);
        assert(text@.take(it.index() as int + 1) == text@.take(it.index() as int).push(c));
    }
    assert(text@.take(text@.len() as int) == text@);
    out
}

/// The string made of these characters.
pub fn string_of(chars: &[char]) -> (r: String)
    ensures
        r@ == chars@,
{
    let mut out = String::new();
    let mut i: usize = 0;
    while i < chars.len()
        invariant
            i <= chars@.len(),
            out@ == chars@.take(i as int),
        decreases chars@.len() - i,
    {
        out.push(chars[i]);
        assert(chars@.take(i + 1) == chars@.take(i as int).push(chars@[i as int]));
        i += 1;
    }
    assert(chars@.take(chars@.len() as int) == chars@);
    out
}

/// Do two strings hold the same characters?
pub fn same(a: &str, b: &str) -> (r: bool)
    ensures
        r == (a@ == b@),
{
    let left = chars_of(a);
    let right = chars_of(b);
    same_chars(left.as_slice(), right.as_slice())
}

/// Do two slices hold the same characters?
pub fn same_chars(a: &[char], b: &[char]) -> (r: bool)
    ensures
        r == (a@ == b@),
{
    if a.len() != b.len() {
        return false;
    }
    let mut i: usize = 0;
    while i < a.len()
        invariant
            a@.len() == b@.len(),
            i <= a@.len(),
            forall|j: int| 0 <= j < i ==> a@[j] == b@[j],
        decreases a@.len() - i,
    {
        if a[i] != b[i] {
            return false;
        }
        i += 1;
    }
    assert(a@ =~= b@);
    true
}

/// Do these characters spell this word?
pub fn spells(chars: &[char], word: &str) -> (r: bool)
    ensures
        r == (chars@ == word@),
{
    let letters = chars_of(word);
    same_chars(chars, letters.as_slice())
}

/// The characters of each of several string slices.
pub open spec fn slices(parts: Seq<&str>) -> Seq<Seq<char>> {
    parts.map_values(|s: &str| s@)
}

/// Borrow each of several strings.
pub fn borrowed(strings: &[String]) -> (r: Vec<&str>)
    ensures
        slices(r@) == texts(strings@),
{
    let mut out: Vec<&str> = Vec::new();
    let mut i: usize = 0;
    while i < strings.len()
        invariant
            i <= strings@.len(),
            out@.len() == i,
            forall|j: int| 0 <= j < i ==> (#[trigger] out@[j])@ == strings@[j]@,
        decreases strings@.len() - i,
    {
        out.push(strings[i].as_str());
        i += 1;
    }
    assert(slices(out@) =~= texts(strings@));
    out
}

// ---------------------------------------------------------------------------
// Character classes
// ---------------------------------------------------------------------------

/// Unicode `White_Space`.
pub open spec fn white_space(c: char) -> bool {
    let u = c as int;
    ||| 0x9 <= u <= 0xd
    ||| u == 0x20
    ||| u == 0x85
    ||| u == 0xa0
    ||| u == 0x1680
    ||| 0x2000 <= u <= 0x200a
    ||| u == 0x2028
    ||| u == 0x2029
    ||| u == 0x202f
    ||| u == 0x205f
    ||| u == 0x3000
}

/// Unicode general category `Cc`: the C0 and C1 controls and `DEL`.
pub open spec fn control(c: char) -> bool {
    let u = c as int;
    u <= 0x1f || 0x7f <= u <= 0x9f
}

pub open spec fn ascii_digit(c: char) -> bool {
    '0' <= c <= '9'
}

pub open spec fn ascii_upper_letter(c: char) -> bool {
    'A' <= c <= 'Z'
}

pub open spec fn ascii_lower_letter(c: char) -> bool {
    'a' <= c <= 'z'
}

pub open spec fn ascii_alphanumeric(c: char) -> bool {
    ascii_digit(c) || ascii_upper_letter(c) || ascii_lower_letter(c)
}

/// `a`–`z` become `A`–`Z`; every other character is itself.
pub open spec fn upper(c: char) -> char {
    if ascii_lower_letter(c) {
        (c as int - 32) as char
    } else {
        c
    }
}

/// `A`–`Z` become `a`–`z`; every other character is itself.
pub open spec fn lower(c: char) -> char {
    if ascii_upper_letter(c) {
        (c as int + 32) as char
    } else {
        c
    }
}

pub fn is_white_space(c: char) -> (r: bool)
    ensures
        r == white_space(c),
{
    let u: u32 = c as u32;
    (0x9 <= u && u <= 0xd) || u == 0x20 || u == 0x85 || u == 0xa0 || u == 0x1680 || (0x2000 <= u
        && u <= 0x200a) || u == 0x2028 || u == 0x2029 || u == 0x202f || u == 0x205f || u == 0x3000
}

pub fn is_control(c: char) -> (r: bool)
    ensures
        r == control(c),
{
    let u: u32 = c as u32;
    u <= 0x1f || (0x7f <= u && u <= 0x9f)
}

pub fn is_ascii_digit(c: char) -> (r: bool)
    ensures
        r == ascii_digit(c),
{
    '0' <= c && c <= '9'
}

pub fn is_ascii_alphanumeric(c: char) -> (r: bool)
    ensures
        r == ascii_alphanumeric(c),
{
    ('0' <= c && c <= '9') || ('A' <= c && c <= 'Z') || ('a' <= c && c <= 'z')
}

pub fn to_upper(c: char) -> (r: char)
    ensures
        r == upper(c),
{
    if 'a' <= c && c <= 'z' {
        ((c as u8) - 32) as char
    } else {
        c
    }
}

pub fn to_lower(c: char) -> (r: char)
    ensures
        r == lower(c),
{
    if 'A' <= c && c <= 'Z' {
        ((c as u8) + 32) as char
    } else {
        c
    }
}

/// A whole text with its ASCII letters lower-cased.
pub open spec fn lowered(text: Seq<char>) -> Seq<char> {
    text.map_values(|c: char| lower(c))
}

/// [`lowered`], computed.
pub fn to_lowered(chars: &[char]) -> (r: Vec<char>)
    ensures
        r@ == lowered(chars@),
{
    let mut out: Vec<char> = Vec::new();
    let mut i: usize = 0;
    while i < chars.len()
        invariant
            i <= chars@.len(),
            out@ == lowered(chars@.take(i as int)),
        decreases chars@.len() - i,
    {
        out.push(to_lower(chars[i]));
        i += 1;
        assert(out@ =~= lowered(chars@.take(i as int)));
    }
    assert(chars@.take(chars@.len() as int) =~= chars@);
    out
}

// ---------------------------------------------------------------------------
// Trimming
// ---------------------------------------------------------------------------

/// The text without its leading white space.
pub open spec fn trimmed_start(text: Seq<char>) -> Seq<char>
    decreases text.len(),
{
    if text.len() > 0 && white_space(text[0]) {
        trimmed_start(text.drop_first())
    } else {
        text
    }
}

/// The text without its trailing white space.
pub open spec fn trimmed_end(text: Seq<char>) -> Seq<char>
    decreases text.len(),
{
    if text.len() > 0 && white_space(text.last()) {
        trimmed_end(text.drop_last())
    } else {
        text
    }
}

/// The text without the white space around it.
pub open spec fn trimmed(text: Seq<char>) -> Seq<char> {
    trimmed_end(trimmed_start(text))
}

/// Drop the white space around a text.
pub fn trim(chars: &[char]) -> (r: Vec<char>)
    ensures
        r@ == trimmed(chars@),
{
    let mut lo: usize = 0;
    assert(chars@.skip(0) =~= chars@);
    while lo < chars.len() && is_white_space(chars[lo])
        invariant
            lo <= chars@.len(),
            trimmed_start(chars@) == trimmed_start(chars@.skip(lo as int)),
        decreases chars@.len() - lo,
    {
        assert(chars@.skip(lo as int).drop_first() =~= chars@.skip(lo + 1));
        lo += 1;
    }
    let mut hi: usize = chars.len();
    let ghost rest = chars@.skip(lo as int);
    assert(trimmed_start(chars@) == rest);
    assert(rest =~= chars@.subrange(lo as int, hi as int));
    while hi > lo && is_white_space(chars[hi - 1])
        invariant
            lo <= hi <= chars@.len(),
            trimmed_end(rest) == trimmed_end(chars@.subrange(lo as int, hi as int)),
        decreases hi,
    {
        assert(chars@.subrange(lo as int, hi as int).drop_last() =~= chars@.subrange(
            lo as int,
            hi - 1,
        ));
        hi -= 1;
    }
    part(chars, lo, hi)
}

/// The characters from `lo` up to `hi`.
pub fn part(chars: &[char], lo: usize, hi: usize) -> (r: Vec<char>)
    requires
        lo <= hi <= chars@.len(),
    ensures
        r@ == chars@.subrange(lo as int, hi as int),
{
    let mut out: Vec<char> = Vec::new();
    let mut i: usize = lo;
    while i < hi
        invariant
            lo <= i <= hi <= chars@.len(),
            out@ == chars@.subrange(lo as int, i as int),
        decreases hi - i,
    {
        out.push(chars[i]);
        i += 1;
        assert(out@ =~= chars@.subrange(lo as int, i as int));
    }
    out
}

/// Trimming keeps an unbroken stretch of the text, and trimming again keeps all
/// of it.
pub proof fn lemma_trimmed_within(text: Seq<char>)
    ensures
        occurs_in(trimmed(text), text),
        trimmed(trimmed(text)) == trimmed(text),
{
    lemma_trimmed_start(text);
    let inner = trimmed_start(text);
    lemma_trimmed_end(inner);
    let n = trimmed(text).len() as int;
    let at = text.len() - inner.len();
    assert(text.subrange(at, at + n) =~= trimmed(text));
    assert(found_at(text, trimmed(text), at));
    if trimmed(text).len() > 0 {
        assert(trimmed(text)[0] == inner[0]);
    }
}

proof fn lemma_trimmed_start(text: Seq<char>)
    ensures
        trimmed_start(text).len() <= text.len(),
        trimmed_start(text) == text.skip(text.len() - trimmed_start(text).len()),
        trimmed_start(text).len() > 0 ==> !white_space(trimmed_start(text)[0]),
    decreases text.len(),
{
    if text.len() > 0 && white_space(text[0]) {
        let rest = text.drop_first();
        lemma_trimmed_start(rest);
        assert(rest.skip(rest.len() - trimmed_start(rest).len()) =~= text.skip(
            text.len() - trimmed_start(text).len(),
        ));
    } else {
        assert(text.skip(0) =~= text);
    }
}

proof fn lemma_trimmed_end(text: Seq<char>)
    ensures
        trimmed_end(text).len() <= text.len(),
        trimmed_end(text) == text.take(trimmed_end(text).len() as int),
        trimmed_end(text).len() > 0 ==> !white_space(trimmed_end(text).last()),
    decreases text.len(),
{
    if text.len() > 0 && white_space(text.last()) {
        let rest = text.drop_last();
        lemma_trimmed_end(rest);
        assert(rest.take(trimmed_end(rest).len() as int) =~= text.take(
            trimmed_end(text).len() as int,
        ));
    } else {
        assert(text.take(text.len() as int) =~= text);
    }
}

// ---------------------------------------------------------------------------
// Ordering
// ---------------------------------------------------------------------------

/// Alphabetical order by code point, a prefix before what extends it.
pub open spec fn precedes(a: Seq<char>, b: Seq<char>) -> bool
    decreases a.len(),
{
    if b.len() == 0 {
        false
    } else if a.len() == 0 {
        true
    } else if a[0] != b[0] {
        a[0] < b[0]
    } else {
        precedes(a.drop_first(), b.drop_first())
    }
}

/// Nothing comes before itself.
pub proof fn lemma_precedes_irreflexive(a: Seq<char>)
    ensures
        !precedes(a, a),
    decreases a.len(),
{
    if a.len() > 0 {
        lemma_precedes_irreflexive(a.drop_first());
    }
}

/// The order is transitive.
pub proof fn lemma_precedes_transitive(a: Seq<char>, b: Seq<char>, c: Seq<char>)
    requires
        precedes(a, b),
        precedes(b, c),
    ensures
        precedes(a, c),
    decreases a.len(),
{
    if a.len() > 0 && a[0] == b[0] && b[0] == c[0] {
        lemma_precedes_transitive(a.drop_first(), b.drop_first(), c.drop_first());
    }
}

/// Two different texts are ordered one way or the other.
pub proof fn lemma_precedes_total(a: Seq<char>, b: Seq<char>)
    ensures
        a == b || precedes(a, b) || precedes(b, a),
    decreases a.len(),
{
    if a.len() == 0 || b.len() == 0 {
        if a.len() == b.len() {
            assert(a =~= b);
        }
    } else if a[0] == b[0] {
        lemma_precedes_total(a.drop_first(), b.drop_first());
        if a.drop_first() == b.drop_first() {
            assert(a =~= seq![a[0]] + a.drop_first());
            assert(b =~= seq![b[0]] + b.drop_first());
        }
    }
}

/// Does `a` come before `b`?
pub fn is_before(a: &str, b: &str) -> (r: bool)
    ensures
        r == precedes(a@, b@),
{
    let left = chars_of(a);
    let right = chars_of(b);
    let mut i: usize = 0;
    assert(a@.skip(0) =~= a@);
    assert(b@.skip(0) =~= b@);
    while i < left.len() && i < right.len()
        invariant
            i <= left@.len(),
            i <= right@.len(),
            left@ == a@,
            right@ == b@,
            precedes(a@, b@) == precedes(a@.skip(i as int), b@.skip(i as int)),
        decreases left@.len() - i,
    {
        if left[i] != right[i] {
            return left[i] < right[i];
        }
        assert(a@.skip(i as int).drop_first() =~= a@.skip(i + 1));
        assert(b@.skip(i as int).drop_first() =~= b@.skip(i + 1));
        i += 1;
    }
    i < right.len()
}

// ---------------------------------------------------------------------------
// Numerals
// ---------------------------------------------------------------------------

/// The character for a digit below sixteen.
pub open spec fn digit(value: int, uppercase: bool) -> char {
    if value < 10 {
        ('0' as int + value) as char
    } else if uppercase {
        ('A' as int + value - 10) as char
    } else {
        ('a' as int + value - 10) as char
    }
}

/// A number written in a base of at most sixteen, with no leading zeros.
pub open spec fn numeral(value: int, base: int, uppercase: bool) -> Seq<char>
    decreases value,
    when 2 <= base <= 16
{
    if value < base {
        seq![digit(value, uppercase)]
    } else {
        proof {
            assert(0 <= value / base < value) by (nonlinear_arith)
                requires
                    value >= base,
                    base >= 2,
            ;
        }
        numeral(value / base, base, uppercase).push(digit(value % base, uppercase))
    }
}

/// A number in decimal.
pub open spec fn decimal(value: int) -> Seq<char> {
    if value < 0 {
        seq!['-'] + numeral(-value, 10, false)
    } else {
        numeral(value, 10, false)
    }
}

fn digit_of(value: u64, uppercase: bool) -> (r: char)
    requires
        value < 16,
    ensures
        r == digit(value as int, uppercase),
{
    if value < 10 {
        (48 + value as u8) as char
    } else if uppercase {
        (65 + (value as u8 - 10)) as char
    } else {
        (97 + (value as u8 - 10)) as char
    }
}

/// Append a number written in a base.
pub fn push_numeral(out: &mut String, value: u64, base: u64, uppercase: bool)
    requires
        2 <= base <= 16,
    ensures
        final(out)@ == old(out)@ + numeral(value as int, base as int, uppercase),
    decreases value,
{
    if value >= base {
        assert(value / base < value) by (nonlinear_arith)
            requires
                value >= base,
                base >= 2,
        ;
        push_numeral(out, value / base, base, uppercase);
    }
    assert(0 <= value % base < base) by (nonlinear_arith)
        requires
            base >= 2,
    ;
    let ghost high = out@;
    out.push(digit_of(value % base, uppercase));
    proof {
        if value < base {
            assert((value % base) as int == value as int) by (nonlinear_arith)
                requires
                    value < base,
            ;
            assert(out@ =~= old(out)@ + numeral(value as int, base as int, uppercase));
        } else {
            assert(out@ =~= old(out)@ + numeral(value as int, base as int, uppercase));
        }
    }
}

/// Append a number in decimal.
pub fn push_decimal(out: &mut String, value: i64)
    ensures
        final(out)@ == old(out)@ + decimal(value as int),
{
    if value < 0 {
        out.push('-');
        let magnitude: u64 = (-(value as i128)) as u64;
        push_numeral(out, magnitude, 10, false);
        assert(out@ =~= old(out)@ + decimal(value as int));
    } else {
        push_numeral(out, value as u64, 10, false);
    }
}

/// The value of a run of decimal digits.
pub open spec fn digits_value(digits: Seq<char>) -> int
    decreases digits.len(),
{
    if digits.len() == 0 {
        0
    } else {
        digits_value(digits.drop_last()) * 10 + (digits.last() as int - '0' as int)
    }
}

/// Whether a text is one or more decimal digits and nothing else.
pub open spec fn all_digits(text: Seq<char>) -> bool {
    text.len() > 0 && forall|i: int| 0 <= i < text.len() ==> ascii_digit(#[trigger] text[i])
}

/// Whether a text starts with a sign.
pub open spec fn has_sign(text: Seq<char>) -> bool {
    text.len() > 0 && (text[0] == '+' || text[0] == '-')
}

/// The 32-bit integer a text spells: an optional sign, then decimal digits.
pub open spec fn integer(text: Seq<char>) -> Option<i32> {
    let digits = if has_sign(text) {
        text.drop_first()
    } else {
        text
    };
    let value = if has_sign(text) && text[0] == '-' {
        -digits_value(digits)
    } else {
        digits_value(digits)
    };
    if all_digits(digits) && i32::MIN <= value <= i32::MAX {
        Some(value as i32)
    } else {
        None
    }
}

/// More digits never make a number smaller.
proof fn lemma_digits_value_grows(digits: Seq<char>, n: int)
    requires
        forall|i: int| 0 <= i < digits.len() ==> ascii_digit(#[trigger] digits[i]),
        0 <= n <= digits.len(),
    ensures
        0 <= digits_value(digits.take(n)) <= digits_value(digits),
    decreases digits.len(),
{
    if digits.len() == 0 {
        assert(digits.take(n) =~= digits);
    } else {
        let short = digits.drop_last();
        assert forall|i: int| 0 <= i < short.len() implies ascii_digit(#[trigger] short[i]) by {
            assert(short[i] == digits[i]);
        }
        assert(ascii_digit(digits[digits.len() - 1]));
        if n == digits.len() {
            lemma_digits_value_grows(short, n - 1);
            assert(digits.take(n) =~= digits);
            assert(short.take(n - 1) =~= short);
        } else {
            lemma_digits_value_grows(short, n);
            assert(digits.take(n) =~= short.take(n));
        }
    }
}

/// Read the 32-bit integer a text spells.
pub fn parse_integer(text: &[char]) -> (r: Option<i32>)
    ensures
        r == integer(text@),
{
    let signed = text.len() > 0 && (text[0] == '+' || text[0] == '-');
    let negative = text.len() > 0 && text[0] == '-';
    let start: usize = if signed {
        1
    } else {
        0
    };
    let ghost digits = if has_sign(text@) {
        text@.drop_first()
    } else {
        text@
    };
    assert(digits =~= text@.skip(start as int));
    if text.len() == start {
        return None;
    }
    let mut value: i64 = 0;
    let mut i: usize = start;
    assert(digits.take(0) =~= Seq::empty());
    while i < text.len()
        invariant
            start <= i <= text@.len(),
            start <= 1,
            digits == text@.skip(start as int),
            forall|j: int| 0 <= j < i - start ==> ascii_digit(#[trigger] digits[j]),
            value == digits_value(digits.take(i - start)),
            0 <= value <= 0x8000_0000,
            has_sign(text@) == signed,
            signed == (start == 1),
            negative == (has_sign(text@) && text@[0] == '-'),
            digits == (if has_sign(text@) {
                text@.drop_first()
            } else {
                text@
            }),
        decreases text@.len() - i,
    {
        let c = text[i];
        assert(c == digits[i - start]);
        if !is_ascii_digit(c) {
            return None;
        }
        value = value * 10 + (c as u32 as i64 - 48);
        i += 1;
        assert(digits.take(i - start).drop_last() =~= digits.take(i - start - 1));
        if value > 0x8000_0000 {
            proof {
                if all_digits(digits) {
                    lemma_digits_value_grows(digits, i - start);
                }
            }
            return None;
        }
    }
    assert(digits.take(i - start) =~= digits);
    let total: i64 = if negative {
        -value
    } else {
        value
    };
    if total > 0x7fff_ffff {
        return None;
    }
    Some(total as i32)
}

// ---------------------------------------------------------------------------
// Searching and laying out
// ---------------------------------------------------------------------------

/// Whether `needle` stands in `text` at position `at`.
pub open spec fn found_at(text: Seq<char>, needle: Seq<char>, at: int) -> bool {
    0 <= at && at + needle.len() <= text.len() && text.subrange(at, at + needle.len() as int)
        == needle
}

/// Whether `needle` stands anywhere in `text`.
pub open spec fn occurs_in(needle: Seq<char>, text: Seq<char>) -> bool {
    exists|at: int| found_at(text, needle, at)
}

/// Where `needle` first stands in `text`.
pub fn find_in(text: &[char], needle: &[char]) -> (r: Option<usize>)
    ensures
        match r {
            Some(at) => found_at(text@, needle@, at as int) && forall|earlier: int|
                0 <= earlier < at ==> !found_at(text@, needle@, earlier),
            None => !occurs_in(needle@, text@),
        },
{
    if needle.len() > text.len() {
        return None;
    }
    let last: usize = text.len() - needle.len();
    assert(text@.len() <= usize::MAX);
    let mut at: usize = 0;
    loop
        invariant
            at <= last,
            last + needle@.len() == text@.len(),
            text@.len() <= usize::MAX,
            forall|earlier: int| 0 <= earlier < at ==> !found_at(text@, needle@, earlier),
        decreases last - at,
    {
        let window = part(text, at, at + needle.len());
        if same_chars(window.as_slice(), needle) {
            return Some(at);
        }
        if at == last {
            return None;
        }
        at += 1;
    }
}

/// A run of spaces.
pub open spec fn spaces(count: int) -> Seq<char> {
    Seq::new(
        if count < 0 {
            0
        } else {
            count as nat
        },
        |i: int| ' ',
    )
}

/// A text followed by enough spaces to fill `width` columns.
pub open spec fn left_aligned(text: Seq<char>, width: int) -> Seq<char> {
    text + spaces(width - text.len())
}

/// A text preceded by enough spaces to fill `width` columns.
pub open spec fn right_aligned(text: Seq<char>, width: int) -> Seq<char> {
    spaces(width - text.len()) + text
}

fn push_spaces(out: &mut String, count: usize)
    ensures
        final(out)@ == old(out)@ + spaces(count as int),
{
    let mut i: usize = 0;
    assert(out@ =~= old(out)@ + spaces(0));
    while i < count
        invariant
            i <= count,
            out@ == old(out)@ + spaces(i as int),
        decreases count - i,
    {
        out.push(' ');
        i += 1;
        assert(out@ =~= old(out)@ + spaces(i as int));
    }
}

/// Append a text, then spaces up to `width` columns.
pub fn push_left_aligned(out: &mut String, text: &str, width: usize)
    ensures
        final(out)@ == old(out)@ + left_aligned(text@, width as int),
{
    let len: usize = text.unicode_len();
    out.append(text);
    push_spaces(
        out,
        if len < width {
            width - len
        } else {
            0
        },
    );
    assert(out@ =~= old(out)@ + left_aligned(text@, width as int));
}

/// Append spaces, then a text, filling `width` columns.
pub fn push_right_aligned(out: &mut String, text: &str, width: usize)
    ensures
        final(out)@ == old(out)@ + right_aligned(text@, width as int),
{
    let len: usize = text.unicode_len();
    push_spaces(
        out,
        if len < width {
            width - len
        } else {
            0
        },
    );
    out.append(text);
    assert(out@ =~= old(out)@ + right_aligned(text@, width as int));
}

/// Texts one after another with a separator between them.
pub open spec fn joined(parts: Seq<Seq<char>>, separator: Seq<char>) -> Seq<char>
    decreases parts.len(),
{
    if parts.len() == 0 {
        seq![]
    } else if parts.len() == 1 {
        parts[0]
    } else {
        joined(parts.drop_last(), separator) + separator + parts.last()
    }
}

/// Join strings with a separator between them.
pub fn join(parts: &[String], separator: &str) -> (r: String)
    ensures
        r@ == joined(texts(parts@), separator@),
{
    let mut out = String::new();
    let mut i: usize = 0;
    assert(texts(parts@).take(0) =~= seq![]);
    while i < parts.len()
        invariant
            i <= parts@.len(),
            out@ == joined(texts(parts@).take(i as int), separator@),
        decreases parts@.len() - i,
    {
        let ghost before = texts(parts@).take(i as int);
        if i > 0 {
            out.append(separator);
        }
        out.append(parts[i].as_str());
        i += 1;
        proof {
            let now = texts(parts@).take(i as int);
            assert(now.drop_last() =~= before);
            assert(out@ =~= joined(now, separator@));
        }
    }
    assert(texts(parts@).take(i as int) =~= texts(parts@));
    out
}

proof fn lemma_numeral_reads_back(value: int)
    requires
        value >= 0,
    ensures
        all_digits(numeral(value, 10, false)),
        digits_value(numeral(value, 10, false)) == value,
    decreases value,
{
    reveal_with_fuel(digits_value, 2);
    let text = numeral(value, 10, false);
    if value < 10 {
        assert(text =~= seq![digit(value, false)]);
        assert(text.drop_last() =~= Seq::empty());
        assert(text.last() == digit(value, false));
    } else {
        let high = numeral(value / 10, 10, false);
        lemma_numeral_reads_back(value / 10);
        assert(text == high.push(digit(value % 10, false)));
        assert(text.drop_last() =~= high);
        assert forall|i: int| 0 <= i < text.len() implies ascii_digit(#[trigger] text[i]) by {
            if i < high.len() {
                assert(text[i] == high[i]);
            }
        }
    }
}

/// A number that is written can be read back.
pub proof fn law_a_written_number_reads_back(value: i32)
    ensures
        integer(decimal(value as int)) == Some(value),
        value >= 0 ==> all_digits(decimal(value as int)),
        value < 0 ==> decimal(value as int).len() > 0 && decimal(value as int)[0] == '-',
{
    if value < 0 {
        lemma_numeral_reads_back(-value);
        let digits = numeral(-value, 10, false);
        assert((seq!['-'] + digits).drop_first() =~= digits);
    } else {
        lemma_numeral_reads_back(value as int);
        let digits = numeral(value as int, 10, false);
        assert(ascii_digit(digits[0]));
    }
}

/// A text that spells a number spells it digit by digit: one more digit is ten
/// times the number and the digit, a plus changes nothing and a minus turns it
/// around.
pub proof fn law_numbers_are_read_digit_by_digit(digits: Seq<char>, c: char)
    requires
        all_digits(digits),
    ensures
        ascii_digit(c) ==> digits_value(digits.push(c)) == 10 * digits_value(digits) + (c as int
            - '0' as int),
        digits_value(digits) <= i32::MAX ==> integer(digits) == Some(digits_value(digits) as i32)
            && integer(seq!['+'] + digits) == integer(digits),
        -digits_value(digits) >= i32::MIN ==> integer(seq!['-'] + digits) == Some(
            (-digits_value(digits)) as i32,
        ),
        digits_value(digits) > i32::MAX ==> integer(digits) is None,
{
    assert(digits.push(c).drop_last() =~= digits);
    assert((seq!['+'] + digits).drop_first() =~= digits);
    assert((seq!['-'] + digits).drop_first() =~= digits);
    assert(ascii_digit(digits[0]));
    lemma_digits_value_is_natural(digits);
}

proof fn lemma_digits_value_is_natural(digits: Seq<char>)
    requires
        forall|i: int| 0 <= i < digits.len() ==> ascii_digit(#[trigger] digits[i]),
    ensures
        digits_value(digits) >= 0,
    decreases digits.len(),
{
    if digits.len() > 0 {
        let short = digits.drop_last();
        assert forall|i: int| 0 <= i < short.len() implies ascii_digit(#[trigger] short[i]) by {
            assert(short[i] == digits[i]);
        }
        lemma_digits_value_is_natural(short);
        assert(ascii_digit(digits[digits.len() - 1]));
    }
}

/// Anything but digits behind at most one sign is no number.
pub proof fn law_only_digits_are_a_number(text: Seq<char>, i: int)
    requires
        0 <= i < text.len(),
        !ascii_digit(text[i]),
        i > 0 || !has_sign(text),
    ensures
        integer(text) is None,
{
    if has_sign(text) {
        assert(text.drop_first()[i - 1] == text[i]);
    }
}

/// A text without white space at its ends is trimmed to itself.
pub proof fn law_trimming_keeps_what_has_no_space_around_it(text: Seq<char>)
    requires
        text.len() > 0,
        !white_space(text[0]),
        !white_space(text.last()),
    ensures
        trimmed(text) == text,
{
}

/// White space in front and behind makes no difference, and what is trimmed has
/// none at its ends.
pub proof fn law_trimming_takes_space_off_the_ends(text: Seq<char>, space: char)
    requires
        white_space(space),
    ensures
        trimmed(seq![space] + text) == trimmed(text),
        trimmed(text.push(space)) == trimmed(text),
        trimmed(text).len() > 0 ==> !white_space(trimmed(text)[0]) && !white_space(
            trimmed(text).last(),
        ),
{
    assert((seq![space] + text).drop_first() =~= text);
    lemma_space_behind(text, space);
    lemma_start_is_bare(text);
    lemma_end_is_bare(trimmed_start(text));
    lemma_end_keeps_the_start(trimmed_start(text));
}

proof fn lemma_space_behind(text: Seq<char>, space: char)
    requires
        white_space(space),
    ensures
        trimmed(text.push(space)) == trimmed(text),
    decreases text.len(),
{
    let more = text.push(space);
    if text.len() == 0 {
        assert(more.drop_first() =~= Seq::empty());
        reveal_with_fuel(trimmed_start, 2);
        assert(trimmed_start(more) =~= Seq::empty());
        assert(trimmed_start(text) =~= Seq::empty());
    } else if white_space(text[0]) {
        lemma_space_behind(text.drop_first(), space);
        assert(more.drop_first() =~= text.drop_first().push(space));
    } else {
        assert(more.drop_last() =~= text);
    }
}

proof fn lemma_start_is_bare(text: Seq<char>)
    ensures
        trimmed_start(text).len() > 0 ==> !white_space(trimmed_start(text)[0]),
    decreases text.len(),
{
    if text.len() > 0 && white_space(text[0]) {
        lemma_start_is_bare(text.drop_first());
    }
}

proof fn lemma_end_is_bare(text: Seq<char>)
    ensures
        trimmed_end(text).len() > 0 ==> !white_space(trimmed_end(text).last()),
    decreases text.len(),
{
    if text.len() > 0 && white_space(text.last()) {
        lemma_end_is_bare(text.drop_last());
    }
}

proof fn lemma_end_keeps_the_start(text: Seq<char>)
    ensures
        trimmed_end(text).len() > 0 ==> text.len() > 0 && trimmed_end(text)[0] == text[0],
    decreases text.len(),
{
    if text.len() > 0 && white_space(text.last()) {
        lemma_end_keeps_the_start(text.drop_last());
    }
}

/// Letters are told apart by case alone: turning one into the other case moves it
/// to the same letter there, and touches nothing that is no letter.
pub proof fn law_case_is_all_that_changes(c: char)
    ensures
        'A' <= c <= 'Z' ==> lower(c) as int == c as int + 32 && upper(c) == c,
        'a' <= c <= 'z' ==> upper(c) as int == c as int - 32 && lower(c) == c,
        !('A' <= c <= 'Z') && !('a' <= c <= 'z') ==> lower(c) == c && upper(c) == c,
        ascii_alphanumeric(c) <==> '0' <= c <= '9' || 'A' <= c <= 'Z' || 'a' <= c <= 'z',
{
}

/// One text comes before another as in a dictionary: at the first place where they
/// differ it has the smaller character, or it ends there.
pub proof fn law_texts_are_ordered_as_in_a_dictionary(
    common: Seq<char>,
    x: char,
    y: char,
    a: Seq<char>,
    b: Seq<char>,
)
    ensures
        x < y ==> precedes(common + (seq![x] + a), common + (seq![y] + b)),
        x < y ==> !precedes(common + (seq![y] + b), common + (seq![x] + a)),
        precedes(common, common + (seq![x] + a)),
        !precedes(common + (seq![x] + a), common),
        !precedes(common, common),
    decreases common.len(),
{
    let left = common + (seq![x] + a);
    let right = common + (seq![y] + b);
    if common.len() == 0 {
        assert(left =~= seq![x] + a);
        assert(right =~= seq![y] + b);
        assert(left[0] == x && right[0] == y);
    } else {
        let rest = common.drop_first();
        law_texts_are_ordered_as_in_a_dictionary(rest, x, y, a, b);
        assert(left.drop_first() =~= rest + (seq![x] + a));
        assert(right.drop_first() =~= rest + (seq![y] + b));
        assert(left[0] == common[0] && right[0] == common[0]);
    }
}

/// A text occurs in another exactly when the other is something before it, the
/// text, and something behind it.
pub proof fn law_a_text_occurs_where_it_stands(
    before: Seq<char>,
    text: Seq<char>,
    behind: Seq<char>,
    whole: Seq<char>,
)
    ensures
        occurs_in(text, before + text + behind),
        occurs_in(text, whole) ==> exists|head: Seq<char>, tail: Seq<char>|
            whole == #[trigger] (head + text + tail),
{
    let all = before + text + behind;
    assert(all.subrange(before.len() as int, before.len() + text.len() as int) =~= text);
    assert(found_at(all, text, before.len() as int));
    if occurs_in(text, whole) {
        let at = choose|at: int| found_at(whole, text, at);
        let head = whole.take(at);
        let tail = whole.skip(at + text.len() as int);
        assert(whole =~= head + text + tail) by {
            assert forall|i: int| 0 <= i < whole.len() implies whole[i] == (head + text
                + tail)[i] by {
                if at <= i < at + text.len() {
                    assert(whole.subrange(at, at + text.len() as int)[i - at] == whole[i]);
                }
            }
        }
    }
}

/// A text in a column is the text and as many spaces as it takes to fill the
/// column, behind it or before it; one that is too long is kept whole.
pub proof fn law_a_column_is_filled_with_spaces(text: Seq<char>, width: int)
    requires
        width >= 0,
    ensures
        left_aligned(text, width).len() == if text.len() < width {
            width
        } else {
            text.len() as int
        },
        left_aligned(text, width).take(text.len() as int) == text,
        forall|i: int|
            text.len() <= i < left_aligned(text, width).len() ==> #[trigger] left_aligned(
                text,
                width,
            )[i] == ' ',
        right_aligned(text, width).len() == left_aligned(text, width).len(),
        right_aligned(text, width).skip(right_aligned(text, width).len() - text.len()) == text,
        forall|i: int|
            0 <= i < right_aligned(text, width).len() - text.len() ==> #[trigger] right_aligned(
                text,
                width,
            )[i] == ' ',
{
    assert(left_aligned(text, width).take(text.len() as int) =~= text);
    assert(right_aligned(text, width).skip(right_aligned(text, width).len() - text.len())
        =~= text);
}

/// Texts are put together with what separates them between each two and nowhere
/// else.
pub proof fn law_texts_are_put_together(
    parts: Seq<Seq<char>>,
    one: Seq<char>,
    separator: Seq<char>,
)
    ensures
        joined(seq![], separator).len() == 0,
        joined(seq![one], separator) == one,
        parts.len() > 0 ==> joined(parts.push(one), separator) == joined(parts, separator)
            + separator + one,
{
    assert(parts.push(one).drop_last() =~= parts);
}

/// A number is written digit by digit, the last digit being what is left when the
/// rest is taken in tens, or whatever the base is.
pub proof fn law_numbers_are_written_digit_by_digit(
    high: int,
    low: int,
    base: int,
    uppercase: bool,
)
    requires
        2 <= base <= 16,
        high > 0,
        0 <= low < base,
    ensures
        numeral(high * base + low, base, uppercase) == numeral(high, base, uppercase).push(
            digit(low, uppercase),
        ),
        numeral(low, base, uppercase) == seq![digit(low, uppercase)],
        low < 10 ==> digit(low, uppercase) as int == '0' as int + low,
        low >= 10 && uppercase ==> digit(low, uppercase) as int == 'A' as int + low - 10,
        low >= 10 && !uppercase ==> digit(low, uppercase) as int == 'a' as int + low - 10,
{
    let value = high * base + low;
    assert(value >= base && value / base == high && value % base == low) by (nonlinear_arith)
        requires
            value == high * base + low,
            high > 0,
            0 <= low < base,
    ;
}

} // verus!
