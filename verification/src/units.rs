//! Parsing suffix-typed value tokens.
//!
//! `gaffer set left 42% 4200k` reads naturally because the suffix carries the
//! unit. That means the grammar is positional but order-free: `42% 4200k` and
//! `4200k 42%` are the same command, and each field may appear at most once.
//!
//! Bare numbers are accepted where they are unambiguous — brightness tops out
//! at 100 and Kelvin starts at 2900, so the ranges cannot overlap.

use vstd::prelude::*;
use vstd::string::*;

use crate::color::{MAX_KELVIN, MIN_KELVIN};
use crate::state::{Adjust, Power, StatePatch, MAX_BRIGHTNESS};
use crate::strings::{ascii_digit, chars_of, decimal, has_sign, integer,
    law_a_text_occurs_where_it_stands, law_trimming_keeps_what_has_no_space_around_it, lower,
    lowered, occurs_in, parse_integer, part, push_decimal, slices, spells, string_of, to_lowered,
    trim, trimmed, white_space};

verus! {

broadcast use vstd::string::group_string_axioms;

/// One parsed value token.
#[derive(Clone, Copy, Debug, PartialEq, Eq, Structural)]
pub enum Token {
    Power(Power),
    Brightness(Adjust),
    Kelvin(Adjust),
}

/// Why a value token could not be understood.
#[derive(Clone, Debug, PartialEq, Eq)]
pub enum ParseError {
    Empty,
    NotANumber(String),
    /// A bare number that is neither a valid brightness nor a valid Kelvin.
    Ambiguous(String),
    /// A signed value with no unit — `+10` could mean either field.
    RelativeNeedsUnit(String),
    OutOfRange { token: String, unit: &'static str, min: i32, max: i32 },
    /// The same field was named twice in one command.
    Repeated(&'static str),
}

/// A [`ParseError`] with its texts as sequences of characters.
pub enum Fault {
    Empty,
    NotANumber(Seq<char>),
    Ambiguous(Seq<char>),
    RelativeNeedsUnit(Seq<char>),
    OutOfRange { token: Seq<char>, unit: Seq<char>, min: int, max: int },
    Repeated(Seq<char>),
}

impl View for ParseError {
    type V = Fault;

    open spec fn view(&self) -> Fault {
        match self {
            ParseError::Empty => Fault::Empty,
            ParseError::NotANumber(token) => Fault::NotANumber(token@),
            ParseError::Ambiguous(token) => Fault::Ambiguous(token@),
            ParseError::RelativeNeedsUnit(token) => Fault::RelativeNeedsUnit(token@),
            ParseError::OutOfRange { token, unit, min, max } => Fault::OutOfRange {
                token: token@,
                unit: unit@,
                min: *min as int,
                max: *max as int,
            },
            ParseError::Repeated(field) => Fault::Repeated(field@),
        }
    }
}

/// A result with its error as characters.
pub open spec fn outcome<T>(result: Result<T, ParseError>) -> Result<T, Fault> {
    match result {
        Ok(value) => Ok(value),
        Err(error) => Err(error@),
    }
}

impl Fault {
    /// The sentence that tells a person what is wrong with their value.
    pub open spec fn sentence(self) -> Seq<char> {
        match self {
            Fault::Empty => "empty value"@,
            Fault::NotANumber(token) => "`"@ + token + "` is not a number"@,
            Fault::Ambiguous(token) => "`"@ + token + "` is neither a brightness (0-"@ + decimal(
                MAX_BRIGHTNESS as int,
            ) + ") nor a colour temperature ("@ + decimal(MIN_KELVIN as int) + "-"@ + decimal(
                MAX_KELVIN as int,
            ) + "); add a `%` or `k` suffix"@,
            Fault::RelativeNeedsUnit(token) => "`"@ + token + "` needs a unit — did you mean `"@
                + token + "%` or `"@ + token + "k`?"@,
            Fault::OutOfRange { token, unit, min, max } => "`"@ + token + "` is out of range; "@
                + unit + " must be "@ + decimal(min) + "-"@ + decimal(max),
            Fault::Repeated(field) => field + " was given more than once"@,
        }
    }
}

impl ParseError {
    /// The sentence shown to the person who typed the value.
    pub fn message(&self) -> (r: String)
        ensures
            r@ == self@.sentence(),
    {
        let mut out = String::new();
        match self {
            ParseError::Empty => {
                out.append("empty value");
            },
            ParseError::NotANumber(token) => {
                out.append("`");
                out.append(token.as_str());
                out.append("` is not a number");
            },
            ParseError::Ambiguous(token) => {
                out.append("`");
                out.append(token.as_str());
                out.append("` is neither a brightness (0-");
                push_decimal(&mut out, MAX_BRIGHTNESS as i64);
                out.append(") nor a colour temperature (");
                push_decimal(&mut out, MIN_KELVIN as i64);
                out.append("-");
                push_decimal(&mut out, MAX_KELVIN as i64);
                out.append("); add a `%` or `k` suffix");
            },
            ParseError::RelativeNeedsUnit(token) => {
                out.append("`");
                out.append(token.as_str());
                out.append("` needs a unit — did you mean `");
                out.append(token.as_str());
                out.append("%` or `");
                out.append(token.as_str());
                out.append("k`?");
            },
            ParseError::OutOfRange { token, unit, min, max } => {
                out.append("`");
                out.append(token.as_str());
                out.append("` is out of range; ");
                out.append(unit);
                out.append(" must be ");
                push_decimal(&mut out, *min as i64);
                out.append("-");
                push_decimal(&mut out, *max as i64);
            },
            ParseError::Repeated(field) => {
                out.append(field);
                out.append(" was given more than once");
            },
        }
        assert(out@ =~= self@.sentence());
        out
    }
}

/// The number a token spells, and whether its sign makes it relative.
pub open spec fn number_of(token: Seq<char>, number: Seq<char>) -> Result<(i32, bool), Fault> {
    match integer(number) {
        Some(value) => Ok((value, has_sign(number))),
        None => Err(Fault::NotANumber(token)),
    }
}

/// The change a suffixed number asks for: a signed one is relative and taken as
/// it stands, an unsigned one has to lie in the field's range.
pub open spec fn change(
    token: Seq<char>,
    number: Seq<char>,
    unit: Seq<char>,
    min: int,
    max: int,
) -> Result<Adjust, Fault> {
    match number_of(token, number) {
        Err(fault) => Err(fault),
        Ok((value, relative)) => if relative {
            Ok(Adjust::By(value))
        } else if min <= value <= max {
            Ok(Adjust::To(value))
        } else {
            Err(Fault::OutOfRange { token, unit, min, max })
        },
    }
}

/// What a number without a suffix means: whichever field's range it lies in.
pub open spec fn bare(token: Seq<char>) -> Result<Token, Fault> {
    match number_of(token, token) {
        Err(fault) => Err(fault),
        Ok((value, relative)) => if relative {
            Err(Fault::RelativeNeedsUnit(token))
        } else if 0 <= value <= MAX_BRIGHTNESS {
            Ok(Token::Brightness(Adjust::To(value)))
        } else if MIN_KELVIN <= value <= MAX_KELVIN {
            Ok(Token::Kelvin(Adjust::To(value)))
        } else {
            Err(Fault::Ambiguous(token))
        },
    }
}

/// What a value token means.
pub open spec fn parsed(raw: Seq<char>) -> Result<Token, Fault> {
    let token = trimmed(raw);
    if token.len() == 0 {
        Err(Fault::Empty)
    } else if lowered(token) == "on"@ {
        Ok(Token::Power(Power::On))
    } else if lowered(token) == "off"@ {
        Ok(Token::Power(Power::Off))
    } else if lowered(token) == "toggle"@ {
        Ok(Token::Power(Power::Toggle))
    } else if token.last() == '%' {
        match change(token, token.drop_last(), "brightness"@, 0, MAX_BRIGHTNESS as int) {
            Ok(adjust) => Ok(Token::Brightness(adjust)),
            Err(fault) => Err(fault),
        }
    } else if token.last() == 'k' || token.last() == 'K' {
        match change(
            token,
            token.drop_last(),
            "colour temperature"@,
            MIN_KELVIN as int,
            MAX_KELVIN as int,
        ) {
            Ok(adjust) => Ok(Token::Kelvin(adjust)),
            Err(fault) => Err(fault),
        }
    } else {
        bare(token)
    }
}

/// A patch with one more field named in it, unless that field already was.
pub open spec fn joined_by(patch: StatePatch, token: Token) -> Result<StatePatch, Fault> {
    match token {
        Token::Power(power) => if patch.power is Some {
            Err(Fault::Repeated("power"@))
        } else {
            Ok(StatePatch { power: Some(power), ..patch })
        },
        Token::Brightness(adjust) => if patch.brightness is Some {
            Err(Fault::Repeated("brightness"@))
        } else {
            Ok(StatePatch { brightness: Some(adjust), ..patch })
        },
        Token::Kelvin(adjust) => if patch.kelvin is Some {
            Err(Fault::Repeated("colour temperature"@))
        } else {
            Ok(StatePatch { kelvin: Some(adjust), ..patch })
        },
    }
}

/// The patch that value tokens make together, or the first thing wrong with
/// them.
pub open spec fn patch_of(tokens: Seq<Seq<char>>) -> Result<StatePatch, Fault>
    decreases tokens.len(),
{
    if tokens.len() == 0 {
        Ok(StatePatch::nothing())
    } else {
        match patch_of(tokens.drop_last()) {
            Err(fault) => Err(fault),
            Ok(patch) => match parsed(tokens.last()) {
                Err(fault) => Err(fault),
                Ok(token) => joined_by(patch, token),
            },
        }
    }
}

/// Parse a single value token such as `on`, `42%`, `4200k`, `+10%` or `-200k`.
pub fn parse_token(raw: &str) -> (r: Result<Token, ParseError>)
    ensures
        outcome(r) == parsed(raw@),
{
    let all = chars_of(raw);
    let token = trim(all.as_slice());
    if token.len() == 0 {
        return Err(ParseError::Empty);
    }
    let word = to_lowered(token.as_slice());
    if spells(word.as_slice(), "on") {
        return Ok(Token::Power(Power::On));
    }
    if spells(word.as_slice(), "off") {
        return Ok(Token::Power(Power::Off));
    }
    if spells(word.as_slice(), "toggle") {
        return Ok(Token::Power(Power::Toggle));
    }
    let last = token[token.len() - 1];
    let number = part(token.as_slice(), 0, token.len() - 1);
    assert(number@ =~= token@.drop_last());

    if last == '%' {
        let (value, relative) = match split_number(token.as_slice(), number.as_slice()) {
            Ok(pair) => pair,
            Err(error) => return Err(error),
        };
        if !relative {
            if let Err(error) = check_range(
                token.as_slice(),
                "brightness",
                value,
                0,
                MAX_BRIGHTNESS as i32,
            ) {
                return Err(error);
            }
        }
        return Ok(Token::Brightness(adjust(value, relative)));
    }
    if last == 'k' || last == 'K' {
        let (value, relative) = match split_number(token.as_slice(), number.as_slice()) {
            Ok(pair) => pair,
            Err(error) => return Err(error),
        };
        if !relative {
            if let Err(error) = check_range(
                token.as_slice(),
                "colour temperature",
                value,
                MIN_KELVIN as i32,
                MAX_KELVIN as i32,
            ) {
                return Err(error);
            }
        }
        return Ok(Token::Kelvin(adjust(value, relative)));
    }

    // A bare number. Only accept it where the two ranges cannot be confused.
    let (value, relative) = match split_number(token.as_slice(), token.as_slice()) {
        Ok(pair) => pair,
        Err(error) => return Err(error),
    };
    if relative {
        return Err(ParseError::RelativeNeedsUnit(string_of(token.as_slice())));
    }
    if 0 <= value && value <= MAX_BRIGHTNESS as i32 {
        Ok(Token::Brightness(Adjust::To(value)))
    } else if MIN_KELVIN as i32 <= value && value <= MAX_KELVIN as i32 {
        Ok(Token::Kelvin(Adjust::To(value)))
    } else {
        Err(ParseError::Ambiguous(string_of(token.as_slice())))
    }
}

/// Fold a sequence of value tokens into one patch.
pub fn parse_patch(tokens: &[&str]) -> (r: Result<StatePatch, ParseError>)
    ensures
        outcome(r) == patch_of(slices(tokens@)),
{
    let mut patch = StatePatch::empty();
    let mut i: usize = 0;
    let ghost all = slices(tokens@);
    assert(all.take(0) =~= Seq::empty());
    while i < tokens.len()
        invariant
            i <= tokens@.len(),
            all == slices(tokens@),
            patch_of(all.take(i as int)) == Ok::<StatePatch, Fault>(patch),
        decreases tokens@.len() - i,
    {
        let ghost seen = all.take(i + 1);
        proof {
            assert(seen.drop_last() =~= all.take(i as int));
            assert(seen.last() == tokens@[i as int]@);
        }
        match parse_token(tokens[i]) {
            Err(error) => {
                proof {
                    lemma_fault_stays(all, i + 1);
                }
                return Err(error);
            },
            Ok(Token::Power(power)) => {
                if patch.power.is_some() {
                    proof {
                        lemma_fault_stays(all, i + 1);
                    }
                    return Err(ParseError::Repeated("power"));
                }
                patch.power = Some(power);
            },
            Ok(Token::Brightness(adjust)) => {
                if patch.brightness.is_some() {
                    proof {
                        lemma_fault_stays(all, i + 1);
                    }
                    return Err(ParseError::Repeated("brightness"));
                }
                patch.brightness = Some(adjust);
            },
            Ok(Token::Kelvin(adjust)) => {
                if patch.kelvin.is_some() {
                    proof {
                        lemma_fault_stays(all, i + 1);
                    }
                    return Err(ParseError::Repeated("colour temperature"));
                }
                patch.kelvin = Some(adjust);
            },
        }
        i += 1;
    }
    assert(all.take(i as int) =~= all);
    Ok(patch)
}

/// What is wrong with the first tokens is wrong with all of them.
proof fn lemma_fault_stays(tokens: Seq<Seq<char>>, n: int)
    requires
        0 <= n <= tokens.len(),
        patch_of(tokens.take(n)) is Err,
    ensures
        patch_of(tokens) == patch_of(tokens.take(n)),
    decreases tokens.len(),
{
    if n == tokens.len() {
        assert(tokens.take(n) =~= tokens);
    } else {
        assert(tokens.drop_last().take(n) =~= tokens.take(n));
        lemma_fault_stays(tokens.drop_last(), n);
    }
}

fn split_number(token: &[char], number: &[char]) -> (r: Result<(i32, bool), ParseError>)
    ensures
        outcome(r) == number_of(token@, number@),
{
    let relative = number.len() > 0 && (number[0] == '+' || number[0] == '-');
    match parse_integer(number) {
        Some(value) => Ok((value, relative)),
        None => Err(ParseError::NotANumber(string_of(token))),
    }
}

fn adjust(value: i32, relative: bool) -> (r: Adjust)
    ensures
        r == if relative {
            Adjust::By(value)
        } else {
            Adjust::To(value)
        },
{
    if relative {
        Adjust::By(value)
    } else {
        Adjust::To(value)
    }
}

fn check_range(token: &[char], unit: &'static str, value: i32, min: i32, max: i32) -> (r: Result<
    (),
    ParseError,
>)
    ensures
        outcome(r) == if min <= value <= max {
            Ok::<(), Fault>(())
        } else {
            Err(Fault::OutOfRange { token: token@, unit: unit@, min: min as int, max: max as int })
        },
{
    if min <= value && value <= max {
        Ok(())
    } else {
        Err(ParseError::OutOfRange { token: string_of(token), unit, min, max })
    }
}

/// One step of collecting tokens, with everything that can go wrong taken
/// together.
spec fn collect(patch: Option<StatePatch>, raw: Seq<char>) -> Option<StatePatch> {
    match (patch, parsed(raw)) {
        (Some(p), Ok(token)) => match joined_by(p, token) {
            Ok(next) => Some(next),
            Err(_) => None,
        },
        _ => None,
    }
}

proof fn lemma_patch_is_a_fold(tokens: Seq<Seq<char>>)
    ensures
        tokens.fold_left(
            Some(StatePatch::nothing()),
            |patch: Option<StatePatch>, raw: Seq<char>| collect(patch, raw),
        ) == patch_of(tokens).ok(),
    decreases tokens.len(),
{
    if tokens.len() > 0 {
        lemma_patch_is_a_fold(tokens.drop_last());
    }
}

/// Value tokens mean the same in any order: the same tokens shuffled make the
/// same patch, or make none either way.
pub proof fn law_order_of_tokens_does_not_matter(a: Seq<Seq<char>>, b: Seq<Seq<char>>)
    requires
        a.to_multiset() == b.to_multiset(),
    ensures
        patch_of(a) is Ok <==> patch_of(b) is Ok,
        patch_of(a) is Ok ==> patch_of(a) == patch_of(b),
{
    let step = |patch: Option<StatePatch>, raw: Seq<char>| collect(patch, raw);
    assert(vstd::seq_lib::commutative_foldl(step));
    vstd::seq_lib::lemma_fold_left_permutation(a, b, step, Some(StatePatch::nothing()));
    lemma_patch_is_a_fold(a);
    lemma_patch_is_a_fold(b);
}

/// Naming a field twice is an error rather than last-wins: no two tokens of a
/// command that is accepted name the same field.
pub proof fn law_each_field_is_named_at_most_once(tokens: Seq<Seq<char>>, i: int, j: int)
    requires
        patch_of(tokens) is Ok,
        0 <= i < j < tokens.len(),
    ensures
        parsed(tokens[i]) is Ok,
        parsed(tokens[j]) is Ok,
        match (parsed(tokens[i])->Ok_0, parsed(tokens[j])->Ok_0) {
            (Token::Power(_), Token::Power(_)) => false,
            (Token::Brightness(_), Token::Brightness(_)) => false,
            (Token::Kelvin(_), Token::Kelvin(_)) => false,
            _ => true,
        },
    decreases tokens.len(),
{
    let short = tokens.drop_last();
    assert(short[i] == tokens[i]);
    if j < short.len() {
        assert(short[j] == tokens[j]);
        law_each_field_is_named_at_most_once(short, i, j);
    } else {
        lemma_token_shows(short, i);
    }
}

proof fn lemma_token_shows(tokens: Seq<Seq<char>>, i: int)
    requires
        patch_of(tokens) is Ok,
        0 <= i < tokens.len(),
    ensures
        parsed(tokens[i]) is Ok,
        match parsed(tokens[i])->Ok_0 {
            Token::Power(power) => patch_of(tokens)->Ok_0.power == Some(power),
            Token::Brightness(adjust) => patch_of(tokens)->Ok_0.brightness == Some(adjust),
            Token::Kelvin(adjust) => patch_of(tokens)->Ok_0.kelvin == Some(adjust),
        },
    decreases tokens.len(),
{
    if i < tokens.len() - 1 {
        assert(tokens.drop_last()[i] == tokens[i]);
        lemma_token_shows(tokens.drop_last(), i);
    }
}

/// An absolute value that is accepted lies in the hardware's range: clamping
/// never quietly changes what was typed.
pub proof fn law_accepted_absolute_values_are_in_range(raw: Seq<char>)
    ensures
        parsed(raw) matches Ok(Token::Brightness(Adjust::To(value))) ==> 0 <= value
            <= MAX_BRIGHTNESS,
        parsed(raw) matches Ok(Token::Kelvin(Adjust::To(value))) ==> MIN_KELVIN <= value
            <= MAX_KELVIN,
{
}

proof fn lemma_number_has_no_space(number: Seq<char>)
    requires
        integer(number) is Some,
    ensures
        number.len() > 0,
        !white_space(number[0]),
        ascii_digit(number.last()),
        !white_space(number.last()),
{
    let digits = if has_sign(number) {
        number.drop_first()
    } else {
        number
    };
    assert(ascii_digit(digits[digits.len() - 1]));
    assert(ascii_digit(digits[0]));
    assert(digits.last() == number.last());
}

proof fn lemma_no_power_word(token: Seq<char>)
    requires
        token.len() > 0,
        lower(token.last()) != 'n',
        lower(token.last()) != 'f',
        lower(token.last()) != 'e',
    ensures
        lowered(token) != "on"@,
        lowered(token) != "off"@,
        lowered(token) != "toggle"@,
{
    reveal_strlit("on");
    reveal_strlit("off");
    reveal_strlit("toggle");
    assert("on"@[1] == 'n' && "off"@[2] == 'f' && "toggle"@[5] == 'e');
    assert(lowered(token).last() == lower(token.last()));
}

/// A number with a percent sign is a brightness: a step where the number is
/// signed, and otherwise a value, which has to be one the hardware can do.
pub proof fn law_a_percentage_is_a_brightness(number: Seq<char>, value: i32)
    requires
        integer(number) == Some(value),
    ensures
        number[0] == '+' || number[0] == '-' ==> parsed(number.push('%')) == Ok::<Token, Fault>(
            Token::Brightness(Adjust::By(value)),
        ),
        number[0] != '+' && number[0] != '-' && 0 <= value <= 100 ==> parsed(number.push('%'))
            == Ok::<Token, Fault>(Token::Brightness(Adjust::To(value))),
        number[0] != '+' && number[0] != '-' && value > 100 ==> (parsed(number.push('%'))
            matches Err(Fault::OutOfRange { token, unit, min, max }) && token == number.push('%')
            && unit == "brightness"@ && min == 0 && max == 100),
{
    lemma_number_has_no_space(number);
    let token = number.push('%');
    assert(token[0] == number[0]);
    law_trimming_keeps_what_has_no_space_around_it(token);
    lemma_no_power_word(token);
    assert(token.drop_last() =~= number);
}

/// A number with a `k` is a temperature: a step where the number is signed, and
/// otherwise a value, which has to be one the hardware can do.
pub proof fn law_a_number_of_kelvins_is_a_temperature(number: Seq<char>, value: i32, k: char)
    requires
        integer(number) == Some(value),
        k == 'k' || k == 'K',
    ensures
        number[0] == '+' || number[0] == '-' ==> parsed(number.push(k)) == Ok::<Token, Fault>(
            Token::Kelvin(Adjust::By(value)),
        ),
        number[0] != '+' && number[0] != '-' && 2900 <= value <= 7000 ==> parsed(number.push(k))
            == Ok::<Token, Fault>(Token::Kelvin(Adjust::To(value))),
        number[0] != '+' && number[0] != '-' && !(2900 <= value <= 7000) ==> (parsed(
            number.push(k),
        ) matches Err(Fault::OutOfRange { token, unit, min, max }) && token == number.push(k)
            && unit == "colour temperature"@ && min == 2900 && max == 7000),
{
    lemma_number_has_no_space(number);
    let token = number.push(k);
    assert(token[0] == number[0]);
    law_trimming_keeps_what_has_no_space_around_it(token);
    lemma_no_power_word(token);
    assert(token.drop_last() =~= number);
}

/// A bare number is whichever it can be: a brightness up to 100, a temperature from
/// 2900 to 7000, and refused otherwise. A bare step is refused, since it could be
/// either.
pub proof fn law_a_bare_number_is_whichever_it_can_be(number: Seq<char>, value: i32)
    requires
        integer(number) == Some(value),
    ensures
        number[0] == '+' || number[0] == '-' ==> parsed(number) == Err::<Token, Fault>(
            Fault::RelativeNeedsUnit(number),
        ),
        number[0] != '+' && number[0] != '-' ==> {
            &&& 0 <= value <= 100 ==> parsed(number) == Ok::<Token, Fault>(
                Token::Brightness(Adjust::To(value)),
            )
            &&& 2900 <= value <= 7000 ==> parsed(number) == Ok::<Token, Fault>(
                Token::Kelvin(Adjust::To(value)),
            )
            &&& !(0 <= value <= 100) && !(2900 <= value <= 7000) ==> parsed(number) == Err::<
                Token,
                Fault,
            >(Fault::Ambiguous(number))
        },
{
    lemma_number_has_no_space(number);
    law_trimming_keeps_what_has_no_space_around_it(number);
    lemma_no_power_word(number);
}

/// What is no number is refused as such, by itself or with a unit.
pub proof fn law_what_is_no_number_is_refused(text: Seq<char>)
    requires
        integer(text) is None,
        text.len() > 0,
        !white_space(text[0]),
        !white_space(text.last()),
    ensures
        parsed(text.push('%')) == Err::<Token, Fault>(Fault::NotANumber(text.push('%'))),
        parsed(text.push('k')) == Err::<Token, Fault>(Fault::NotANumber(text.push('k'))),
        text.last() != '%' && lower(text.last()) != 'k' && lowered(text) != "on"@ && lowered(text)
            != "off"@ && lowered(text) != "toggle"@ ==> parsed(text) == Err::<Token, Fault>(
            Fault::NotANumber(text),
        ),
{
    law_trimming_keeps_what_has_no_space_around_it(text);
    let percent = text.push('%');
    assert(percent[0] == text[0]);
    law_trimming_keeps_what_has_no_space_around_it(percent);
    lemma_no_power_word(percent);
    assert(percent.drop_last() =~= text);
    let warm = text.push('k');
    assert(warm[0] == text[0]);
    law_trimming_keeps_what_has_no_space_around_it(warm);
    lemma_no_power_word(warm);
    assert(warm.drop_last() =~= text);
}

/// The words `on`, `off` and `toggle`, in any case and with space around them, are
/// power, and nothing else is.
pub proof fn law_power_is_a_word(raw: Seq<char>)
    ensures
        parsed(raw) == Ok::<Token, Fault>(Token::Power(Power::On)) <==> lowered(trimmed(raw))
            == "on"@,
        parsed(raw) == Ok::<Token, Fault>(Token::Power(Power::Off)) <==> lowered(trimmed(raw))
            == "off"@,
        parsed(raw) == Ok::<Token, Fault>(Token::Power(Power::Toggle)) <==> lowered(trimmed(raw))
            == "toggle"@,
        parsed(raw) == Err::<Token, Fault>(Fault::Empty) <==> trimmed(raw).len() == 0,
        parsed(raw) == parsed(trimmed(raw)),
{
    reveal_strlit("on");
    reveal_strlit("off");
    reveal_strlit("toggle");
    let (on, off, toggle) = ("on"@, "off"@, "toggle"@);
    assert(on.len() == 2 && off.len() == 3 && toggle.len() == 6);
    crate::strings::lemma_trimmed_within(raw);
}

/// Several tokens are one patch that says of each field what its token says, and
/// nothing of a field without a token.
pub proof fn law_a_patch_says_what_its_tokens_say(tokens: Seq<Seq<char>>, i: int)
    requires
        patch_of(tokens) is Ok,
        0 <= i < tokens.len(),
    ensures
        ({
            let patch = patch_of(tokens)->Ok_0;
            match parsed(tokens[i]) {
                Ok(Token::Power(power)) => patch.power == Some(power),
                Ok(Token::Brightness(adjust)) => patch.brightness == Some(adjust),
                Ok(Token::Kelvin(adjust)) => patch.kelvin == Some(adjust),
                Err(_) => false,
            }
        }),
    decreases tokens.len(),
{
    let short = tokens.drop_last();
    if i < short.len() {
        assert(short[i] == tokens[i]);
        law_a_patch_says_what_its_tokens_say(short, i);
    } else {
        assert(tokens.last() == tokens[i]);
    }
}

/// A patch says nothing of a field that no token names.
pub proof fn law_a_patch_says_nothing_more(tokens: Seq<Seq<char>>)
    requires
        patch_of(tokens) is Ok,
    ensures
        (patch_of(tokens)->Ok_0).power is Some ==> exists|i: int|
            0 <= i < tokens.len() && (parsed(#[trigger] tokens[i]) matches Ok(Token::Power(_))),
        (patch_of(tokens)->Ok_0).brightness is Some ==> exists|i: int|
            0 <= i < tokens.len() && (parsed(#[trigger] tokens[i]) matches Ok(
                Token::Brightness(_),
            )),
        (patch_of(tokens)->Ok_0).kelvin is Some ==> exists|i: int|
            0 <= i < tokens.len() && (parsed(#[trigger] tokens[i]) matches Ok(Token::Kelvin(_))),
    decreases tokens.len(),
{
    if tokens.len() > 0 {
        let short = tokens.drop_last();
        law_a_patch_says_nothing_more(short);
        let before = patch_of(short)->Ok_0;
        assert(tokens[tokens.len() - 1] == tokens.last());
        if before.power is Some {
            let i = choose|i: int|
                0 <= i < short.len() && (parsed(#[trigger] short[i]) matches Ok(Token::Power(_)));
            assert(tokens[i] == short[i]);
        }
        if before.brightness is Some {
            let i = choose|i: int|
                0 <= i < short.len() && (parsed(#[trigger] short[i]) matches Ok(
                    Token::Brightness(_),
                ));
            assert(tokens[i] == short[i]);
        }
        if before.kelvin is Some {
            let i = choose|i: int|
                0 <= i < short.len() && (parsed(#[trigger] short[i]) matches Ok(Token::Kelvin(_)));
            assert(tokens[i] == short[i]);
        }
    }
}

/// Tokens that all parse and name different fields are a patch, and tokens of which
/// one does not parse are refused for the first that does not, unless a repeated
/// field comes before it.
pub proof fn law_good_tokens_are_a_patch(tokens: Seq<Seq<char>>, raw: Seq<char>)
    requires
        patch_of(tokens) is Ok,
    ensures
        parsed(raw) matches Err(fault) ==> patch_of(tokens.push(raw)) == Err::<StatePatch, Fault>(
            fault,
        ),
        parsed(raw) matches Ok(Token::Power(power)) ==> (patch_of(tokens.push(raw)) is Ok <==> (
        patch_of(tokens)->Ok_0).power is None),
        parsed(raw) matches Ok(Token::Brightness(adjust)) ==> (patch_of(tokens.push(raw)) is Ok
            <==> (patch_of(tokens)->Ok_0).brightness is None),
        parsed(raw) matches Ok(Token::Kelvin(adjust)) ==> (patch_of(tokens.push(raw)) is Ok <==> (
        patch_of(tokens)->Ok_0).kelvin is None),
        patch_of(seq![]) == Ok::<StatePatch, Fault>(
            StatePatch { power: None, brightness: None, kelvin: None },
        ),
{
    assert(tokens.push(raw).drop_last() =~= tokens);
}

/// A complaint quotes the token it is about.
pub proof fn law_a_complaint_quotes_the_token(token: Seq<char>, unit: Seq<char>, min: int, max: int)
    ensures
        occurs_in(token, Fault::NotANumber(token).sentence()),
        occurs_in(token, Fault::Ambiguous(token).sentence()),
        occurs_in(token, Fault::RelativeNeedsUnit(token).sentence()),
        occurs_in(token, Fault::OutOfRange { token, unit, min, max }.sentence()),
        occurs_in(unit, Fault::OutOfRange { token, unit, min, max }.sentence()),
        occurs_in(
            decimal(min) + "-"@ + decimal(max),
            Fault::OutOfRange { token, unit, min, max }.sentence(),
        ),
        occurs_in(token, Fault::Repeated(token).sentence()),
{
    law_a_text_occurs_where_it_stands("`"@, token, "` is not a number"@, seq![]);
    let ambiguous = Fault::Ambiguous(token).sentence();
    let rest = ambiguous.skip(("`"@ + token).len() as int);
    assert(ambiguous =~= "`"@ + token + rest);
    law_a_text_occurs_where_it_stands("`"@, token, rest, seq![]);
    let needs = Fault::RelativeNeedsUnit(token).sentence();
    let more = needs.skip(("`"@ + token).len() as int);
    assert(needs =~= "`"@ + token + more);
    law_a_text_occurs_where_it_stands("`"@, token, more, seq![]);
    let range = Fault::OutOfRange { token, unit, min, max }.sentence();
    let bounds = decimal(min) + "-"@ + decimal(max);
    let first = "`"@ + token + "` is out of range; "@;
    assert(range =~= "`"@ + token + ("` is out of range; "@ + unit + " must be "@ + bounds));
    law_a_text_occurs_where_it_stands(
        "`"@,
        token,
        "` is out of range; "@ + unit + " must be "@ + bounds,
        seq![],
    );
    assert(range =~= first + unit + (" must be "@ + bounds));
    law_a_text_occurs_where_it_stands(first, unit, " must be "@ + bounds, seq![]);
    assert(range =~= first + unit + " must be "@ + bounds + seq![]);
    law_a_text_occurs_where_it_stands(first + unit + " must be "@, bounds, seq![], seq![]);
    let repeated = Fault::Repeated(token).sentence();
    assert(repeated =~= seq![] + token + " was given more than once"@);
    law_a_text_occurs_where_it_stands(seq![], token, " was given more than once"@, seq![]);
}

/// A number that could be neither is answered with both of the ranges it missed.
pub proof fn law_an_ambiguous_number_is_told_both_ranges(token: Seq<char>)
    ensures
        occurs_in("(0-"@ + decimal(100) + ")"@, Fault::Ambiguous(token).sentence()),
        occurs_in(
            "("@ + decimal(2900) + "-"@ + decimal(7000) + ")"@,
            Fault::Ambiguous(token).sentence(),
        ),
{
    let sentence = Fault::Ambiguous(token).sentence();
    let brightness = "(0-"@ + decimal(100) + ")"@;
    let kelvin = "("@ + decimal(2900) + "-"@ + decimal(7000) + ")"@;
    reveal_strlit("(0-");
    reveal_strlit(")");
    reveal_strlit("(");
    reveal_strlit("` is neither a brightness (0-");
    reveal_strlit(") nor a colour temperature (");
    reveal_strlit("); add a `%` or `k` suffix");
    let lead = "` is neither a brightness (0-"@;
    let joint = ") nor a colour temperature ("@;
    let trail = "); add a `%` or `k` suffix"@;
    let opening = "`"@ + token + lead.take(lead.len() - 3);
    assert(lead =~= lead.take(lead.len() - 3) + "(0-"@);
    assert(joint =~= ")"@ + joint.skip(1).take(joint.len() - 2) + "("@);
    assert(trail =~= ")"@ + trail.skip(1));
    let middle = joint.skip(1).take(joint.len() - 2);
    assert(sentence =~= opening + brightness + (middle + kelvin + trail.skip(1)));
    law_a_text_occurs_where_it_stands(opening, brightness, middle + kelvin + trail.skip(1), seq![]);
    assert(sentence =~= (opening + brightness + middle) + kelvin + trail.skip(1));
    law_a_text_occurs_where_it_stands(opening + brightness + middle, kelvin, trail.skip(1), seq![]);
}

} // verus!
