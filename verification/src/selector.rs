//! Choosing which lights a command applies to.
//!
//! Selectors are deliberately forgiving: `left` should find "Elgato Key Light
//! Left" without quoting or tab-completion, because the whole point of the
//! command line is to be bindable to a key in one line of compositor config.
//!
//! A selector may match several lights. That is not an error — the command fans
//! out. Matching *nothing* is the error, and the caller reports it.

use vstd::prelude::*;
use vstd::string::*;

use crate::strings::{ascii_alphanumeric, chars_of, find_in, is_ascii_alphanumeric,
    lemma_trimmed_within, lower, lowered, occurs_in, same, spells, string_of, to_lower, to_lowered,
    trim, trimmed};

verus! {

broadcast use vstd::string::group_string_axioms;

/// The lower-case form of a text, by Unicode's rules.
pub uninterp spec fn lowercase(text: Seq<char>) -> Seq<char>;

/// `str::to_lowercase` depends on the text alone; what it returns is called
/// [`lowercase`] of that text.
pub assume_specification[ str::to_lowercase ](s: &str) -> (r: String)
    ensures
        r@ == lowercase(s@),
;

/// Which lights a command addresses.
#[derive(Debug, PartialEq, Eq)]
pub enum Selector {
    /// Every known light.
    All,
    /// Case-insensitive match against a light's id or a substring of its name.
    Pattern(String),
}

/// A [`Selector`] with its pattern as a sequence of characters.
pub enum Choice {
    All,
    Pattern(Seq<char>),
}

impl View for Selector {
    type V = Choice;

    open spec fn view(&self) -> Choice {
        match self {
            Selector::All => Choice::All,
            Selector::Pattern(pattern) => Choice::Pattern(pattern@),
        }
    }
}

impl Clone for Selector {
    fn clone(&self) -> (r: Self)
        ensures
            r@ == self@,
    {
        match self {
            Selector::All => Selector::All,
            Selector::Pattern(pattern) => Selector::Pattern(pattern.clone()),
        }
    }
}

/// An identifier in comparable form: alphanumerics only, lower-cased.
pub open spec fn squashed(value: Seq<char>) -> Seq<char> {
    value.filter(|c: char| ascii_alphanumeric(c)).map_values(|c: char| lower(c))
}

/// Whether a pattern addresses a light, given the lower-case forms of the
/// pattern and of the light's name: the whole id, or any part of the name.
pub open spec fn pattern_addresses(
    pattern: Seq<char>,
    id: Seq<char>,
    low_pattern: Seq<char>,
    low_name: Seq<char>,
) -> bool {
    pattern.len() > 0 && (squashed(id) == squashed(pattern) || (low_pattern.len() > 0 && occurs_in(
        low_pattern,
        low_name,
    )))
}

impl Choice {
    /// What a selector as typed asks for.
    pub open spec fn typed(raw: Seq<char>) -> Choice {
        let token = trimmed(raw);
        if lowered(token) == "all"@ || token == "*"@ {
            Choice::All
        } else {
            Choice::Pattern(token)
        }
    }

    /// Whether the light with this id and name is addressed.
    pub open spec fn addresses(self, id: Seq<char>, name: Seq<char>) -> bool {
        match self {
            Choice::All => true,
            Choice::Pattern(pattern) => pattern_addresses(
                pattern,
                id,
                lowercase(pattern),
                lowercase(name),
            ),
        }
    }

    /// The selector as it is shown in messages.
    pub open spec fn shown(self) -> Seq<char> {
        match self {
            Choice::All => "all"@,
            Choice::Pattern(pattern) => pattern,
        }
    }
}

impl Selector {
    /// Interpret a user-supplied selector string.
    pub fn parse(raw: &str) -> (r: Self)
        ensures
            r@ == Choice::typed(raw@),
    {
        let all = chars_of(raw);
        let token = trim(all.as_slice());
        let word = to_lowered(token.as_slice());
        if spells(word.as_slice(), "all") || spells(token.as_slice(), "*") {
            Selector::All
        } else {
            Selector::Pattern(string_of(token.as_slice()))
        }
    }

    /// Does this selector address the light with the given id and name?
    pub fn matches(&self, id: &str, name: &str) -> (r: bool)
        ensures
            r == self@.addresses(id@, name@),
    {
        match self {
            Selector::All => true,
            Selector::Pattern(pattern) => {
                let low_pattern = pattern.as_str().to_lowercase();
                let low_name = name.to_lowercase();
                pattern_matches(pattern.as_str(), id, low_pattern.as_str(), low_name.as_str())
            },
        }
    }

    /// The selector as it is shown in messages.
    pub fn to_text(&self) -> (r: String)
        ensures
            r@ == self@.shown(),
    {
        match self {
            Selector::All => "all".to_owned(),
            Selector::Pattern(pattern) => pattern.clone(),
        }
    }
}

/// Does a pattern address a light, given the pattern and the light's name in
/// lower case?
///
/// Ids are MACs; they are accepted with or without separators, so both
/// `00:00:5E:00:53:01` and `00005e005301` work.
pub fn pattern_matches(pattern: &str, id: &str, low_pattern: &str, low_name: &str) -> (r: bool)
    ensures
        r == pattern_addresses(pattern@, id@, low_pattern@, low_name@),
{
    let typed = chars_of(pattern);
    if typed.len() == 0 {
        return false;
    }
    if same(squash(id).as_str(), squash(pattern).as_str()) {
        return true;
    }
    let needle = chars_of(low_pattern);
    let text = chars_of(low_name);
    needle.len() > 0 && find_in(text.as_slice(), needle.as_slice()).is_some()
}

/// Reduce an identifier to comparable form: alphanumerics only, lowercased.
fn squash(value: &str) -> (r: String)
    ensures
        r@ == squashed(value@),
{
    let chars = chars_of(value);
    let mut out = String::new();
    let mut i: usize = 0;
    proof {
        reveal(Seq::filter);
    }
    assert(value@.take(0) =~= Seq::<char>::empty());
    assert(squashed(value@.take(0)) =~= Seq::<char>::empty());
    while i < chars.len()
        invariant
            i <= chars@.len(),
            chars@ == value@,
            out@ == squashed(value@.take(i as int)),
        decreases chars@.len() - i,
    {
        let c = chars[i];
        proof {
            let before = value@.take(i as int);
            let after = value@.take(i + 1);
            assert(after.drop_last() =~= before);
            reveal(Seq::filter);
            assert(squashed(after) =~= if ascii_alphanumeric(c) {
                squashed(before).push(lower(c))
            } else {
                squashed(before)
            });
        }
        if is_ascii_alphanumeric(c) {
            out.push(to_lower(c));
        }
        i += 1;
    }
    assert(value@.take(i as int) =~= value@);
    out
}

/// `all` addresses every light there is.
pub proof fn law_all_addresses_every_light(id: Seq<char>, name: Seq<char>)
    ensures
        Choice::All.addresses(id, name),
{
}

/// An id addresses its own light however it is punctuated or cased.
pub proof fn law_ids_match_with_or_without_separators(
    pattern: Seq<char>,
    id: Seq<char>,
    name: Seq<char>,
)
    requires
        pattern.len() > 0,
        squashed(pattern) == squashed(id),
    ensures
        Choice::Pattern(pattern).addresses(id, name),
{
}

/// A blank selector addresses nothing.
pub proof fn law_an_empty_pattern_matches_nothing(raw: Seq<char>, id: Seq<char>, name: Seq<char>)
    requires
        trimmed(raw).len() == 0,
    ensures
        !Choice::typed(raw).addresses(id, name),
{
    reveal_strlit("all");
    reveal_strlit("*");
    assert(lowered(trimmed(raw)).len() == 0);
    assert("all"@.len() == 3);
    assert("*"@.len() == 1);
}

/// A selector that was typed, once shown, can be typed again and means the same.
pub proof fn law_a_shown_selector_reads_back(raw: Seq<char>)
    ensures
        Choice::typed(Choice::typed(raw).shown()) == Choice::typed(raw),
{
    lemma_trimmed_within(raw);
    reveal_strlit("all");
    let word = "all"@;
    assert(word.len() == 3 && word[0] == 'a' && word[2] == 'l');
    assert(trimmed(word) == word);
    assert(lowered(word) =~= word);
}

/// A pattern matches a light exactly when it is the light's id, punctuation and
/// case aside, or when it occurs in the light's name, case aside.
pub proof fn law_a_pattern_matches_the_id_or_part_of_the_name(
    pattern: Seq<char>,
    id: Seq<char>,
    name: Seq<char>,
)
    requires
        pattern.len() > 0,
        lowercase(pattern).len() > 0,
    ensures
        Choice::Pattern(pattern).addresses(id, name) <==> squashed(id) == squashed(pattern)
            || occurs_in(lowercase(pattern), lowercase(name)),
{
}

/// Ids are compared character by character: letters and digits count, whatever
/// their case, and nothing else does.
pub proof fn law_ids_are_compared_by_letters_and_digits(value: Seq<char>, c: char)
    ensures
        squashed(seq![]).len() == 0,
        ascii_alphanumeric(c) ==> squashed(value.push(c)) == squashed(value).push(lower(c)),
        !ascii_alphanumeric(c) ==> squashed(value.push(c)) == squashed(value),
{
    reveal(Seq::filter);
    assert(value.push(c).drop_last() =~= value);
    if ascii_alphanumeric(c) {
        assert(squashed(value.push(c)) =~= squashed(value).push(lower(c)));
    }
}

/// `all`, however it is spelled, and a star are everyone; anything else is a
/// pattern, without the space around it.
pub proof fn law_everyone_is_all_or_a_star(raw: Seq<char>)
    ensures
        lowered(trimmed(raw)) == "all"@ || trimmed(raw) == "*"@ <==> Choice::typed(raw)
            == Choice::All,
        Choice::typed(raw) matches Choice::Pattern(pattern) ==> pattern == trimmed(raw),
        Choice::typed(raw) matches Choice::Pattern(pattern) ==> Choice::typed(raw).shown()
            == pattern,
        Choice::All.shown() == "all"@,
{
}

} // verus!
