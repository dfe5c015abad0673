//! Making untrusted device text safe to display.
//!
//! Names, models and firmware strings come from two places an attacker on the
//! local link controls completely: the `displayName` field of an HTTP response,
//! and mDNS record labels. They then travel to a terminal, to a status bar, to
//! the journal, and to any D-Bus client — none of which expect to receive
//! control characters.
//!
//! Sanitising here rather than in a renderer is deliberate: the daemon is the
//! single point every one of those sinks reads through, so one filter covers
//! all of them, including sinks that do not exist yet.

use vstd::prelude::*;

use crate::strings::{ascii_alphanumeric, chars_of, control, found_at, is_ascii_alphanumeric,
    is_control, lemma_trimmed_within, string_of, to_upper, trim, trimmed, upper, white_space};

verus! {

/// Longest device string worth keeping. Real names are a few words; anything
/// longer is either a mistake or an attempt to disrupt a display.
pub const MAX_DISPLAY_LEN: usize = 128;

/// The characters of a text that can be shown.
pub open spec fn printable(raw: Seq<char>) -> Seq<char> {
    raw.filter(|c: char| !control(c))
}

/// The first `count` characters of a text, or all of it when it is shorter.
pub open spec fn at_most(text: Seq<char>, count: int) -> Seq<char> {
    if text.len() <= count {
        text
    } else {
        text.take(count)
    }
}

/// What device text is reduced to before anything shows it.
pub open spec fn sanitized(raw: Seq<char>) -> Seq<char> {
    trimmed(at_most(printable(raw), MAX_DISPLAY_LEN as int))
}

/// The letters and digits of an id, upper-cased.
pub open spec fn canonical(raw: Seq<char>) -> Seq<char> {
    raw.filter(|c: char| ascii_alphanumeric(c)).map_values(|c: char| upper(c))
}

/// The canonical form of an id, if anything usable remains of it.
pub open spec fn normalized(raw: Seq<char>) -> Option<Seq<char>> {
    if canonical(raw).len() == 0 {
        None
    } else {
        Some(canonical(raw))
    }
}

/// Strip control characters and clamp the length of untrusted device text.
///
/// Control characters are *removed* rather than escaped, because every consumer
/// wants something printable and none of them want to render an escape. That
/// includes:
///
/// * `ESC`, which would otherwise let a device paint arbitrary ANSI sequences
///   onto the terminal of anyone listing the lights — erasing lines, forging
///   prompts, or writing the clipboard via OSC 52.
/// * `NUL`, which is not representable in a D-Bus string. Serialising one would
///   produce a malformed message and get the daemon disconnected from the bus.
/// * `\r` and `\n`, which would let a device forge extra lines in the journal
///   or in a table.
pub fn sanitize(raw: &str) -> (r: String)
    ensures
        r@ == sanitized(raw@),
{
    let chars = chars_of(raw);
    let mut kept: Vec<char> = Vec::new();
    let mut i: usize = 0;
    let ghost shown = |c: char| !control(c);
    proof {
        reveal(Seq::filter);
    }
    assert(raw@.take(0) =~= Seq::<char>::empty());
    while i < chars.len()
        invariant
            i <= chars@.len(),
            chars@ == raw@,
            shown == (|c: char| !control(c)),
            kept@ == at_most(printable(raw@.take(i as int)), MAX_DISPLAY_LEN as int),
        decreases chars@.len() - i,
    {
        let c = chars[i];
        proof {
            let before = raw@.take(i as int);
            let after = raw@.take(i + 1);
            assert(after =~= before.push(c));
            assert(after.drop_last() =~= before);
            reveal(Seq::filter);
            assert(printable(after) == if control(c) {
                printable(before)
            } else {
                printable(before).push(c)
            });
        }
        if !is_control(c) && kept.len() < MAX_DISPLAY_LEN {
            kept.push(c);
        }
        i += 1;
        assert(kept@ =~= at_most(printable(raw@.take(i as int)), MAX_DISPLAY_LEN as int));
    }
    assert(raw@.take(i as int) =~= raw@);
    let tidy = trim(kept.as_slice());
    string_of(tidy.as_slice())
}

/// Reduce a device id to its canonical form: alphanumerics only, upper-cased.
///
/// Ids are hardware MACs, which devices punctuate inconsistently. Canonicalising
/// once, at discovery, means `00:00:5E:00:53:01` and `00-00-5e-00-53-01` are
/// recognised as the same hardware and become one record — rather than two
/// records that then collide on a single D-Bus object path.
///
/// Returns `None` when nothing usable remains, which also keeps an id of pure
/// punctuation from producing the empty, invalid object path `…/lights/`.
pub fn normalize_id(raw: &str) -> (r: Option<String>)
    ensures
        crate::strings::text_of(r) == normalized(raw@),
{
    let chars = chars_of(raw);
    let mut id: Vec<char> = Vec::new();
    let mut i: usize = 0;
    proof {
        reveal(Seq::filter);
    }
    assert(raw@.take(0) =~= Seq::<char>::empty());
    assert(canonical(raw@.take(0)) =~= Seq::<char>::empty());
    while i < chars.len()
        invariant
            i <= chars@.len(),
            chars@ == raw@,
            id@ == canonical(raw@.take(i as int)),
        decreases chars@.len() - i,
    {
        let c = chars[i];
        proof {
            let before = raw@.take(i as int);
            let after = raw@.take(i + 1);
            assert(after =~= before.push(c));
            assert(after.drop_last() =~= before);
            reveal(Seq::filter);
            assert(canonical(after) =~= if ascii_alphanumeric(c) {
                canonical(before).push(upper(c))
            } else {
                canonical(before)
            });
        }
        if is_ascii_alphanumeric(c) {
            id.push(to_upper(c));
        }
        i += 1;
    }
    assert(raw@.take(i as int) =~= raw@);
    if id.len() == 0 {
        None
    } else {
        Some(string_of(id.as_slice()))
    }
}

proof fn lemma_filter_keeps(text: Seq<char>, keep: spec_fn(char) -> bool)
    ensures
        forall|i: int| 0 <= i < text.filter(keep).len() ==> keep(#[trigger] text.filter(keep)[i]),
        text.filter(keep).len() <= text.len(),
        (forall|i: int| 0 <= i < text.len() ==> keep(#[trigger] text[i])) ==> text.filter(keep)
            == text,
    decreases text.len(),
{
    reveal(Seq::filter);
    if text.len() > 0 {
        lemma_filter_keeps(text.drop_last(), keep);
        if forall|i: int| 0 <= i < text.len() ==> keep(#[trigger] text[i]) {
            let short = text.drop_last();
            assert forall|i: int| 0 <= i < short.len() implies keep(#[trigger] short[i]) by {
                assert(short[i] == text[i]);
            }
            assert(keep(text[text.len() - 1]));
            assert(short.push(text.last()) =~= text);
        }
    }
}

/// Whatever a device sends, what is shown holds no control character, is no
/// longer than the limit, and neither starts nor ends with white space.
pub proof fn law_sanitized_text_is_displayable(raw: Seq<char>)
    ensures
        forall|i: int| 0 <= i < sanitized(raw).len() ==> !control(#[trigger] sanitized(raw)[i]),
        sanitized(raw).len() <= MAX_DISPLAY_LEN,
        trimmed(sanitized(raw)) == sanitized(raw),
{
    lemma_filter_keeps(raw, |c: char| !control(c));
    let cut = at_most(printable(raw), MAX_DISPLAY_LEN as int);
    assert forall|i: int| 0 <= i < cut.len() implies !control(#[trigger] cut[i]) by {
        assert(cut[i] == printable(raw)[i]);
    }
    lemma_trimmed_within(cut);
    assert forall|i: int| 0 <= i < sanitized(raw).len() implies !control(
        #[trigger] sanitized(raw)[i],
    ) by {
        let at = choose|at: int| found_at(cut, sanitized(raw), at);
        assert(cut.subrange(at, at + sanitized(raw).len() as int)[i] == cut[at + i]);
    }
}

/// Text that is already fit to show is shown as it is, so sanitising twice is
/// sanitising once.
pub proof fn law_sanitizing_twice_changes_nothing(raw: Seq<char>)
    ensures
        sanitized(sanitized(raw)) == sanitized(raw),
{
    law_sanitized_text_is_displayable(raw);
    lemma_filter_keeps(sanitized(raw), |c: char| !control(c));
}

/// A canonical id is made of letters and digits alone, and canonicalising it
/// again changes nothing.
pub proof fn law_canonical_id_is_stable(raw: Seq<char>)
    ensures
        forall|i: int|
            0 <= i < canonical(raw).len() ==> ascii_alphanumeric(#[trigger] canonical(raw)[i]),
        canonical(canonical(raw)) == canonical(raw),
{
    let letters = raw.filter(|c: char| ascii_alphanumeric(c));
    lemma_filter_keeps(raw, |c: char| ascii_alphanumeric(c));
    assert forall|i: int| 0 <= i < canonical(raw).len() implies ascii_alphanumeric(
        #[trigger] canonical(raw)[i],
    ) by {
        assert(ascii_alphanumeric(letters[i]));
    }
    lemma_filter_keeps(canonical(raw), |c: char| ascii_alphanumeric(c));
    assert(canonical(canonical(raw)) =~= canonical(raw)) by {
        assert forall|i: int| 0 <= i < canonical(raw).len() implies upper(
            #[trigger] canonical(raw)[i],
        ) == canonical(raw)[i] by {
            assert(canonical(raw)[i] == upper(letters[i]));
        }
    }
}

/// Two spellings of one id that differ only in punctuation and case are the
/// same hardware.
pub proof fn law_punctuation_does_not_make_hardware_distinct(a: Seq<char>, b: Seq<char>)
    requires
        crate::strings::lowered(a.filter(|c: char| ascii_alphanumeric(c)))
            == crate::strings::lowered(b.filter(|c: char| ascii_alphanumeric(c))),
    ensures
        normalized(a) == normalized(b),
{
    let left = a.filter(|c: char| ascii_alphanumeric(c));
    let right = b.filter(|c: char| ascii_alphanumeric(c));
    lemma_filter_keeps(a, |c: char| ascii_alphanumeric(c));
    lemma_filter_keeps(b, |c: char| ascii_alphanumeric(c));
    assert(crate::strings::lowered(left).len() == crate::strings::lowered(right).len());
    assert forall|i: int| 0 <= i < left.len() implies upper(#[trigger] left[i]) == upper(
        right[i],
    ) by {
        assert(crate::strings::lowered(left)[i] == crate::strings::lowered(right)[i]);
        assert(ascii_alphanumeric(right[i]));
    }
    assert(canonical(a) =~= canonical(b));
}

/// Text that is fit to show is shown as it is: short enough, without control
/// characters and without white space around it.
pub proof fn law_fit_text_is_shown_as_it_is(text: Seq<char>)
    requires
        text.len() <= 128,
        forall|i: int| 0 <= i < text.len() ==> !control(#[trigger] text[i]),
        text.len() > 0 ==> !white_space(text[0]) && !white_space(text.last()),
    ensures
        sanitized(text) == text,
{
    lemma_filter_keeps(text, |c: char| !control(c));
    if text.len() == 0 {
        assert(trimmed(text) =~= text);
    }
}

/// A control character leaves no trace.
pub proof fn law_a_control_character_leaves_no_trace(
    head: Seq<char>,
    bad: char,
    tail: Seq<char>,
)
    requires
        control(bad),
    ensures
        sanitized(head.push(bad) + tail) == sanitized(head + tail),
{
    lemma_filter_splits(head.push(bad), tail, |c: char| !control(c));
    lemma_filter_splits(head, tail, |c: char| !control(c));
    reveal(Seq::filter);
    assert(head.push(bad).drop_last() =~= head);
}

proof fn lemma_filter_splits(a: Seq<char>, b: Seq<char>, keep: spec_fn(char) -> bool)
    ensures
        (a + b).filter(keep) == a.filter(keep) + b.filter(keep),
    decreases b.len(),
{
    reveal(Seq::filter);
    if b.len() == 0 {
        assert(a + b =~= a);
        assert((a + b).filter(keep) =~= a.filter(keep) + b.filter(keep));
    } else {
        lemma_filter_splits(a, b.drop_last(), keep);
        assert((a + b).drop_last() =~= a + b.drop_last());
        assert((a + b).filter(keep) =~= a.filter(keep) + b.filter(keep));
    }
}

/// An id is canonicalised character by character: a letter or digit is kept in
/// upper case and anything else is dropped.
pub proof fn law_ids_are_canonicalised_character_by_character(raw: Seq<char>, c: char)
    ensures
        canonical(seq![]).len() == 0,
        ascii_alphanumeric(c) ==> canonical(raw.push(c)) == canonical(raw).push(upper(c)),
        !ascii_alphanumeric(c) ==> canonical(raw.push(c)) == canonical(raw),
        normalized(raw) is None <==> canonical(raw).len() == 0,
        normalized(raw) matches Some(id) ==> id == canonical(raw),
{
    reveal(Seq::filter);
    assert(raw.push(c).drop_last() =~= raw);
    let keep = |x: char| ascii_alphanumeric(x);
    if ascii_alphanumeric(c) {
        assert(canonical(raw.push(c)) =~= canonical(raw).push(upper(c)));
    }
}

/// Text that is too long is cut where the limit is.
pub proof fn law_long_text_is_cut(text: Seq<char>)
    requires
        text.len() > 128,
        forall|i: int| 0 <= i < text.len() ==> !control(#[trigger] text[i]),
    ensures
        sanitized(text) == trimmed(text.take(128)),
{
    lemma_filter_keeps(text, |c: char| !control(c));
}

} // verus!
