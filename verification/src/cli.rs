//! What the command line makes of its arguments.

use vstd::prelude::*;
use vstd::string::*;

use crate::json::compact_text;
use crate::proxy::{info_views, InfoView, LightInfo};
use crate::render;
use crate::render::{line_text, waybar_tree};
use crate::strings::{chars_of, decimal, join, joined, law_a_text_occurs_where_it_stands,
    occurs_in, part, push_numeral, same, same_chars, string_of, text_of, texts, trim, trimmed};
use crate::units::{parse_token, parsed};

verus! {

broadcast use vstd::string::group_string_axioms;

/// The selector and the value tokens that arguments stand for. A leading
/// argument that is a value is no selector, and the selector is then `all`.
pub open spec fn divided(args: Seq<Seq<char>>) -> (Seq<char>, Seq<Seq<char>>) {
    if args.len() == 0 {
        ("all"@, seq![])
    } else if parsed(args[0]) is Ok {
        ("all"@, args)
    } else {
        (args[0], args.drop_first())
    }
}

/// The command that arguments make, with the power change its verb implies in
/// front of the values; none when there is nothing to set.
pub open spec fn commanded(args: Seq<Seq<char>>, implied_power: Option<Seq<char>>) -> Result<
    (Seq<char>, Seq<Seq<char>>),
    Seq<char>,
> {
    let (selector, tokens) = divided(args);
    let all = match implied_power {
        Some(power) => seq![power] + tokens,
        None => tokens,
    };
    if all.len() == 0 {
        Err(selector)
    } else {
        Ok((selector, all))
    }
}

fn copy_from(args: &[String], start: usize) -> (r: Vec<String>)
    requires
        start <= args@.len(),
    ensures
        texts(r@) == texts(args@).skip(start as int),
{
    let mut out: Vec<String> = Vec::new();
    let mut i: usize = start;
    while i < args.len()
        invariant
            start <= i <= args@.len(),
            out@.len() == i - start,
            forall|j: int| 0 <= j < i - start ==> (#[trigger] out@[j])@ == args@[start + j]@,
        decreases args@.len() - i,
    {
        out.push(args[i].clone());
        i += 1;
    }
    assert(texts(out@) =~= texts(args@).skip(start as int));
    out
}

/// Decide whether the first argument is a selector or already a value.
///
/// `gaffer on 42%` and `gaffer on left 42%` should both work, so a leading
/// argument that parses as a value token is treated as one, and the selector
/// defaults to `all`.
pub fn split_selector(args: &[String]) -> (r: (String, Vec<String>))
    ensures
        (r.0@, texts(r.1@)) == divided(texts(args@)),
{
    if args.len() == 0 {
        let none: Vec<String> = Vec::new();
        assert(texts(none@) =~= seq![]);
        return ("all".to_owned(), none);
    }
    assert(texts(args@)[0] == args@[0]@);
    if parse_token(args[0].as_str()).is_ok() {
        let tokens = copy_from(args, 0);
        assert(texts(args@).skip(0) =~= texts(args@));
        ("all".to_owned(), tokens)
    } else {
        let tokens = copy_from(args, 1);
        assert(texts(args@).skip(1) =~= texts(args@).drop_first());
        (args[0].clone(), tokens)
    }
}

/// Put a command together out of its arguments: the selector, then the values,
/// led by the power change the verb implies. The error carries the selector of a
/// command that names no value.
pub fn command(args: &[String], implied_power: Option<&str>) -> (r: Result<
    (String, Vec<String>),
    String,
>)
    ensures
        ({
            let power = match implied_power {
                Some(power) => Some(power@),
                None => None,
            };
            match r {
                Ok((selector, tokens)) => commanded(texts(args@), power) == Ok::<
                    (Seq<char>, Seq<Seq<char>>),
                    Seq<char>,
                >((selector@, texts(tokens@))),
                Err(selector) => commanded(texts(args@), power) == Err::<
                    (Seq<char>, Seq<Seq<char>>),
                    Seq<char>,
                >(selector@),
            }
        }),
{
    let (selector, rest) = split_selector(args);
    let mut tokens = rest;
    let ghost given = texts(tokens@);
    if let Some(power) = implied_power {
        tokens.insert(0, power.to_owned());
        assert(texts(tokens@) =~= seq![power@] + given);
    }
    assert(texts(tokens@).len() == tokens@.len());
    if tokens.len() == 0 {
        return Err(selector);
    }
    Ok((selector, tokens))
}

/// A verb of the command line, with its arguments as they were typed.
#[derive(Debug)]
pub enum Verb {
    /// Show every known light.
    List { json: bool },
    /// Apply values to the lights a selector matches.
    Assign { args: Vec<String> },
    /// Power on, optionally applying values in the same command.
    On { args: Vec<String> },
    /// Power off.
    Off { args: Vec<String> },
    /// Flip power. On a group, "all on" flips off and anything else flips on.
    Toggle { args: Vec<String> },
    /// Make the hardware blink so you can tell which light is which.
    Identify { selector: Option<String> },
    /// Gang lights so they move as one instrument, keeping their current
    /// brightness difference — or, mirrored, snapping onto the first.
    Link { mirror: bool, selectors: Vec<String> },
    /// Break the gang a light belongs to.
    Unlink { selector: Option<String> },
    /// Save or restore the whole desk.
    Scene { args: Vec<String> },
    /// Re-probe the network now.
    Rescan,
    /// Stream state changes until interrupted.
    Watch { waybar: bool },
}

/// What a verb asks of the daemon.
#[derive(Debug)]
pub enum Call {
    List { json: bool },
    SetState { selector: String, tokens: Vec<String> },
    Identify(String),
    /// Gang these lights, then mirror the gang of the given selector if there is
    /// one: mirrored after ganging, so the gang's reference — the first selector
    /// — is the lamp everything snaps onto.
    Link { selectors: Vec<String>, mirror: Option<String> },
    Unlink(String),
    SaveScene(String),
    ApplyScene(String),
    Rescan,
    Watch { waybar: bool },
}

/// A [`Call`] as mathematics.
pub enum CallView {
    List { json: bool },
    SetState { selector: Seq<char>, tokens: Seq<Seq<char>> },
    Identify(Seq<char>),
    Link { selectors: Seq<Seq<char>>, mirror: Option<Seq<char>> },
    Unlink(Seq<char>),
    SaveScene(Seq<char>),
    ApplyScene(Seq<char>),
    Rescan,
    Watch { waybar: bool },
}

impl View for Call {
    type V = CallView;

    open spec fn view(&self) -> CallView {
        match self {
            Call::List { json } => CallView::List { json: *json },
            Call::SetState { selector, tokens } => CallView::SetState {
                selector: selector@,
                tokens: texts(tokens@),
            },
            Call::Identify(selector) => CallView::Identify(selector@),
            Call::Link { selectors, mirror } => CallView::Link {
                selectors: texts(selectors@),
                mirror: text_of(*mirror),
            },
            Call::Unlink(selector) => CallView::Unlink(selector@),
            Call::SaveScene(name) => CallView::SaveScene(name@),
            Call::ApplyScene(name) => CallView::ApplyScene(name@),
            Call::Rescan => CallView::Rescan,
            Call::Watch { waybar } => CallView::Watch { waybar: *waybar },
        }
    }
}

/// A selector as typed, everything when it was left out.
pub open spec fn or_all(selector: Option<String>) -> Seq<char> {
    match selector {
        Some(selector) => selector@,
        None => "all"@,
    }
}

/// The call that values for a selector make, or what a command that names no
/// value is told.
pub open spec fn state_call(args: Seq<Seq<char>>, power: Option<Seq<char>>) -> Result<
    CallView,
    Seq<char>,
> {
    match commanded(args, power) {
        Ok((selector, tokens)) => Ok(CallView::SetState { selector, tokens }),
        Err(selector) => Err("nothing to set — try `gaffer set "@ + selector + " 42%`"@),
    }
}

/// What a scene command asks for: `save` and a name saves, a name alone restores.
pub open spec fn scene_call(args: Seq<Seq<char>>) -> Result<CallView, Seq<char>> {
    if args.len() == 1 {
        Ok(CallView::ApplyScene(args[0]))
    } else if args.len() == 2 && args[0] == "save"@ {
        Ok(CallView::SaveScene(args[1]))
    } else {
        Err("expected `gaffer scene <name>` or `gaffer scene save <name>`"@)
    }
}

/// What a command line asks of the daemon. A bare invocation means list.
pub open spec fn called(verb: Option<Verb>) -> Result<CallView, Seq<char>> {
    match verb {
        None => Ok(CallView::List { json: false }),
        Some(Verb::List { json }) => Ok(CallView::List { json }),
        Some(Verb::Assign { args }) => state_call(texts(args@), None),
        Some(Verb::On { args }) => state_call(texts(args@), Some("on"@)),
        Some(Verb::Off { args }) => state_call(texts(args@), Some("off"@)),
        Some(Verb::Toggle { args }) => state_call(texts(args@), Some("toggle"@)),
        Some(Verb::Identify { selector }) => Ok(CallView::Identify(or_all(selector))),
        Some(Verb::Link { mirror, selectors }) => Ok(
            CallView::Link {
                selectors: texts(selectors@),
                mirror: if mirror {
                    Some(
                        if selectors@.len() == 0 {
                            seq![]
                        } else {
                            selectors@[0]@
                        },
                    )
                } else {
                    None
                },
            },
        ),
        Some(Verb::Unlink { selector }) => Ok(CallView::Unlink(or_all(selector))),
        Some(Verb::Scene { args }) => scene_call(texts(args@)),
        Some(Verb::Rescan) => Ok(CallView::Rescan),
        Some(Verb::Watch { waybar }) => Ok(CallView::Watch { waybar }),
    }
}

fn set_state(args: &[String], power: Option<&str>) -> (r: Result<Call, String>)
    ensures
        ({
            let implied = match power {
                Some(power) => Some(power@),
                None => None,
            };
            match r {
                Ok(call) => state_call(texts(args@), implied) == Ok::<CallView, Seq<char>>(call@),
                Err(message) => state_call(texts(args@), implied) == Err::<CallView, Seq<char>>(
                    message@,
                ),
            }
        }),
{
    match command(args, power) {
        Ok((selector, tokens)) => Ok(Call::SetState { selector, tokens }),
        Err(selector) => {
            let mut out = String::new();
            out.append("nothing to set — try `gaffer set ");
            out.append(selector.as_str());
            out.append(" 42%`");
            assert(out@ =~= "nothing to set — try `gaffer set "@ + selector@ + " 42%`"@);
            Err(out)
        },
    }
}

fn everything(selector: Option<String>) -> (r: String)
    ensures
        r@ == or_all(selector),
{
    match selector {
        Some(selector) => selector,
        None => "all".to_owned(),
    }
}

/// Turn a command line into what it asks of the daemon, or into what is wrong
/// with it.
pub fn call_for(verb: Option<Verb>) -> (r: Result<Call, String>)
    ensures
        match r {
            Ok(call) => called(verb) == Ok::<CallView, Seq<char>>(call@),
            Err(message) => called(verb) == Err::<CallView, Seq<char>>(message@),
        },
{
    match verb {
        None => Ok(Call::List { json: false }),
        Some(Verb::List { json }) => Ok(Call::List { json }),
        Some(Verb::Assign { args }) => set_state(args.as_slice(), None),
        Some(Verb::On { args }) => set_state(args.as_slice(), Some("on")),
        Some(Verb::Off { args }) => set_state(args.as_slice(), Some("off")),
        Some(Verb::Toggle { args }) => set_state(args.as_slice(), Some("toggle")),
        Some(Verb::Identify { selector }) => Ok(Call::Identify(everything(selector))),
        Some(Verb::Link { mirror, selectors }) => {
            let lead = if !mirror {
                None
            } else if selectors.len() == 0 {
                let blank = String::new();
                assert(blank@ =~= seq![]);
                Some(blank)
            } else {
                Some(selectors[0].clone())
            };
            Ok(Call::Link { selectors, mirror: lead })
        },
        Some(Verb::Unlink { selector }) => Ok(Call::Unlink(everything(selector))),
        Some(Verb::Scene { args }) => {
            assert(texts(args@).len() == args@.len());
            if args.len() == 1 {
                assert(texts(args@)[0] == args@[0]@);
                Ok(Call::ApplyScene(args[0].clone()))
            } else if args.len() == 2 && same(args[0].as_str(), "save") {
                assert(texts(args@)[0] == args@[0]@ && texts(args@)[1] == args@[1]@);
                Ok(Call::SaveScene(args[1].clone()))
            } else {
                assert(args@.len() == 2 ==> texts(args@)[0] == args@[0]@);
                Err("expected `gaffer scene <name>` or `gaffer scene save <name>`".to_owned())
            }
        },
        Some(Verb::Rescan) => Ok(Call::Rescan),
        Some(Verb::Watch { waybar }) => Ok(Call::Watch { waybar }),
    }
}

/// What a command whose selector matched nothing is told.
pub fn no_match(selector: &str) -> (r: String)
    ensures
        r@ == "no light matches `"@ + selector@ + "`"@,
{
    let mut out = String::new();
    out.append("no light matches `");
    out.append(selector);
    out.append("`");
    assert(out@ =~= "no light matches `"@ + selector@ + "`"@);
    out
}

/// What a command that would break a gang where there is none is told.
pub fn none_ganged(selector: &str) -> (r: String)
    ensures
        r@ == "`"@ + selector@ + "` matched no ganged light"@,
{
    let mut out = String::new();
    out.append("`");
    out.append(selector);
    out.append("` matched no ganged light");
    assert(out@ =~= "`"@ + selector@ + "` matched no ganged light"@);
    out
}

/// What is said of a gang that was made.
pub fn ganged_line(members: &[String]) -> (r: String)
    ensures
        r@ == "ganged "@ + decimal(members@.len() as int) + " lights: "@ + joined(
            texts(members@),
            ", "@,
        ),
{
    let mut out = String::new();
    out.append("ganged ");
    push_numeral(&mut out, members.len() as u64, 10, false);
    out.append(" lights: ");
    out.append(join(members, ", ").as_str());
    assert(out@ =~= "ganged "@ + decimal(members@.len() as int) + " lights: "@ + joined(
        texts(members@),
        ", "@,
    ));
    out
}

/// What is said of a gang that was broken.
pub fn unganged_line(count: usize) -> (r: String)
    ensures
        r@ == "unganged "@ + decimal(count as int) + " lights"@,
{
    let mut out = String::new();
    out.append("unganged ");
    push_numeral(&mut out, count as u64, 10, false);
    out.append(" lights");
    assert(out@ =~= "unganged "@ + decimal(count as int) + " lights"@);
    out
}

/// Whether a running executable was replaced on disk, going by the path the
/// kernel shows for it: the precise symptom of an upgrade that was installed but
/// never restarted.
pub fn is_replaced(exe: &str) -> (r: bool)
    ensures
        r == (" (deleted)"@.is_suffix_of(exe@)),
{
    let chars = chars_of(exe);
    let mark = chars_of(" (deleted)");
    if chars.len() < mark.len() {
        return false;
    }
    let tail = part(chars.as_slice(), chars.len() - mark.len(), chars.len());
    same_chars(tail.as_slice(), mark.as_slice())
}

/// What is printed of a rendering, next to what stands there already.
pub open spec fn news_in(previous: Seq<char>, rendered: Seq<char>) -> Option<Seq<char>> {
    if previous == rendered {
        None
    } else {
        Some(rendered)
    }
}

/// Whether a rendering is worth printing: the daemon emits one signal per changed
/// property, and collapsing on the rendered form keeps a slider drag from
/// flooding the panel.
pub fn is_news(previous: &str, rendered: &str) -> (r: bool)
    ensures
        r == (previous@ != rendered@),
{
    !same(previous, rendered)
}

/// What is shown of the lights: the panel's object, or a line for a terminal.
pub open spec fn shown(waybar: bool, lights: Seq<InfoView>) -> Seq<char> {
    if waybar {
        compact_text(waybar_tree(lights))
    } else {
        line_text(lights)
    }
}

/// What a watch hears from the bus.
#[derive(Clone, Copy, Debug, PartialEq, Eq, Structural)]
pub enum Stir {
    /// A property of a light changed.
    Changed,
    /// An object appeared.
    Appeared,
    /// An object vanished.
    Vanished,
}

/// Prints state on every change until interrupted.
///
/// On any signal the whole world is read again rather than deltas being applied
/// incrementally: with a handful of lights the round trip is free, and reading
/// again cannot drift out of sync with the daemon.
#[derive(Debug)]
pub struct Watcher {
    pub waybar: bool,
    /// What was printed last.
    pub previous: String,
}

impl Watcher {
    /// Start watching; what is to be printed first is in `previous`.
    pub fn new(waybar: bool, lights: &[LightInfo]) -> (r: Self)
        ensures
            r.waybar == waybar,
            r.previous@ == shown(waybar, info_views(lights@)),
    {
        let previous = if waybar {
            render::waybar(lights)
        } else {
            render::line(lights)
        };
        Watcher { waybar, previous }
    }

    /// Whether the set of lights to listen to has to be set up again.
    pub fn must_rearm(&self, stir: Stir) -> (r: bool)
        ensures
            r == (stir != Stir::Changed),
    {
        stir != Stir::Changed
    }

    /// The lights as they were read after a signal: what to print, unless it is
    /// what stands there already.
    pub fn on_lights(&mut self, lights: &[LightInfo]) -> (r: Option<String>)
        ensures
            final(self).waybar == old(self).waybar,
            final(self).previous@ == shown(old(self).waybar, info_views(lights@)),
            text_of(r) == news_in(
                old(self).previous@,
                shown(old(self).waybar, info_views(lights@)),
            ),
    {
        let next = Watcher::new(self.waybar, lights).previous;
        if !is_news(self.previous.as_str(), next.as_str()) {
            return None;
        }
        self.previous = next.clone();
        Some(next)
    }
}

/// What the daemon is started for.
#[derive(Debug)]
pub enum DaemonVerb {
    Run,
    Version,
    Help,
    /// An argument it does not take.
    Unexpected(String),
}

impl DaemonVerb {
    /// Whether this is what an argument asks for.
    pub open spec fn answers(self, arg: Option<&str>) -> bool {
        match arg {
            None => self is Run,
            Some(arg) => if arg@ == "--version"@ || arg@ == "-V"@ {
                self is Version
            } else if arg@ == "--help"@ || arg@ == "-h"@ {
                self is Help
            } else {
                self matches DaemonVerb::Unexpected(other) && other@ == arg@
            },
        }
    }
}

/// What the daemon's first argument asks for.
///
/// It takes no options, and the only thing that matters is not silently booting
/// a daemon when someone types `--help` and waits for output that never comes. An
/// unknown argument is an error for the same reason: a typo in a unit file should
/// fail loudly rather than start a daemon that ignores it.
pub fn daemon_verb(arg: Option<&str>) -> (r: DaemonVerb)
    ensures
        r.answers(arg),
{
    match arg {
        None => DaemonVerb::Run,
        Some(arg) => if same(arg, "--version") || same(arg, "-V") {
            DaemonVerb::Version
        } else if same(arg, "--help") || same(arg, "-h") {
            DaemonVerb::Help
        } else {
            DaemonVerb::Unexpected(arg.to_owned())
        },
    }
}

/// The words of an error reply that are enough by themselves.
pub open spec fn told_plainly(name: Seq<char>, detail: Option<&str>) -> Option<Seq<char>> {
    match detail {
        Some(detail) => if name == "org.freedesktop.DBus.Error.InvalidArgs"@ {
            Some(detail@)
        } else {
            None
        },
        None => None,
    }
}

/// What a person is told of an error reply, if it was theirs: a mistyped value is
/// a user error, not a transport failure, so the reply's own words are enough.
pub fn plain_message(name: &str, detail: Option<&str>) -> (r: Option<String>)
    ensures
        text_of(r) == told_plainly(name@, detail),
{
    match detail {
        Some(detail) => if same(name, "org.freedesktop.DBus.Error.InvalidArgs") {
            Some(detail.to_owned())
        } else {
            None
        },
        None => None,
    }
}

/// The name of a build.
pub open spec fn build_name(given: Option<&str>, commit: Option<&str>, dirty: bool) -> Seq<char> {
    if given matches Some(id) && trimmed(id@).len() > 0 {
        trimmed(given->0@)
    } else if commit is Some {
        "git"@ + commit->0@ + if dirty {
            "-dirty"@
        } else {
            ""@
        }
    } else {
        "unknown"@
    }
}

/// Which build this is, most trustworthy source first: what the packager said it
/// is, the commit it was built from, or that nobody knows. A build made from
/// edited sources cannot claim to be the commit it was based on.
pub fn build_id(given: Option<&str>, commit: Option<&str>, dirty: bool) -> (r: String)
    ensures
        r@ == build_name(given, commit, dirty),
{
    if let Some(id) = given {
        let id = trim(chars_of(id).as_slice());
        if id.len() > 0 {
            return string_of(id.as_slice());
        }
    }
    match commit {
        Some(sha) => {
            let mut out = String::new();
            out.append("git");
            out.append(sha);
            out.append(
                if dirty {
                    "-dirty"
                } else {
                    ""
                },
            );
            assert(out@ =~= "git"@ + sha@ + if dirty {
                "-dirty"@
            } else {
                ""@
            });
            out
        },
        None => "unknown".to_owned(),
    }
}

/// A verb that implies a power change always has something to set, and applies it
/// to everything when no selector is given.
pub proof fn law_a_verb_always_has_something_to_set(args: Seq<Seq<char>>, power: Seq<char>)
    ensures
        commanded(args, Some(power)) matches Ok((selector, tokens)) && tokens.len() > 0
            && tokens[0] == power,
        args.len() == 0 ==> (commanded(args, Some(power)) matches Ok((selector, tokens))
            && selector == "all"@),
{
}

/// No argument is lost: what is not the selector is a value, in order.
pub proof fn law_every_argument_is_used(args: Seq<Seq<char>>)
    ensures
        divided(args).1 == args || (args.len() > 0 && args == seq![divided(args).0] + divided(
            args,
        ).1),
{
    if args.len() > 0 && parsed(args[0]) is Err {
        assert(args =~= seq![args[0]] + args.drop_first());
    } else if args.len() == 0 {
        assert(args =~= seq![]);
    }
}

/// The first argument is the selector exactly when it is no value; without one a
/// command is for everyone.
pub proof fn law_the_first_argument_selects_unless_it_is_a_value(
    first: Seq<char>,
    rest: Seq<Seq<char>>,
)
    ensures
        divided(seq![]) == ("all"@, Seq::<Seq<char>>::empty()),
        parsed(first) is Ok ==> divided(seq![first] + rest) == ("all"@, seq![first] + rest),
        parsed(first) is Err ==> divided(seq![first] + rest) == (first, rest),
{
    let args = seq![first] + rest;
    assert(args[0] == first);
    assert(args.drop_first() =~= rest);
}

/// A command sends its values in order, with the power its verb implies before
/// them, and refuses to send nothing.
pub proof fn law_a_command_sends_its_values(args: Seq<Seq<char>>, power: Seq<char>)
    ensures
        commanded(args, Some(power)) == Ok::<(Seq<char>, Seq<Seq<char>>), Seq<char>>(
            (divided(args).0, seq![power] + divided(args).1),
        ),
        divided(args).1.len() > 0 ==> commanded(args, None) == Ok::<
            (Seq<char>, Seq<Seq<char>>),
            Seq<char>,
        >((divided(args).0, divided(args).1)),
        divided(args).1.len() == 0 ==> commanded(args, None) == Err::<
            (Seq<char>, Seq<Seq<char>>),
            Seq<char>,
        >(divided(args).0),
{
}

/// Every verb calls for what it is named after.
pub proof fn law_verbs_call_for_what_they_say(verb: Verb)
    ensures
        called(None) == Ok::<CallView, Seq<char>>(CallView::List { json: false }),
        verb matches Verb::List { json } ==> called(Some(verb)) == Ok::<CallView, Seq<char>>(
            CallView::List { json },
        ),
        verb matches Verb::Assign { args } ==> called(Some(verb)) == state_call(texts(args@), None),
        verb matches Verb::On { args } ==> (called(Some(verb)) matches Ok(
            CallView::SetState { selector, tokens },
        ) && tokens[0] == "on"@ && selector == divided(texts(args@)).0 && tokens.skip(1) == divided(
            texts(args@),
        ).1),
        verb matches Verb::Off { args } ==> (called(Some(verb)) matches Ok(
            CallView::SetState { selector, tokens },
        ) && tokens[0] == "off"@ && selector == divided(texts(args@)).0 && tokens.skip(1)
            == divided(texts(args@)).1),
        verb matches Verb::Toggle { args } ==> (called(Some(verb)) matches Ok(
            CallView::SetState { selector, tokens },
        ) && tokens[0] == "toggle"@ && selector == divided(texts(args@)).0 && tokens.skip(1)
            == divided(texts(args@)).1),
        verb matches Verb::Identify { selector: None } ==> called(Some(verb)) == Ok::<
            CallView,
            Seq<char>,
        >(CallView::Identify("all"@)),
        verb matches Verb::Identify { selector: Some(selector) } ==> called(Some(verb)) == Ok::<
            CallView,
            Seq<char>,
        >(CallView::Identify(selector@)),
        verb matches Verb::Unlink { selector: None } ==> called(Some(verb)) == Ok::<
            CallView,
            Seq<char>,
        >(CallView::Unlink("all"@)),
        verb matches Verb::Unlink { selector: Some(selector) } ==> called(Some(verb)) == Ok::<
            CallView,
            Seq<char>,
        >(CallView::Unlink(selector@)),
        verb matches Verb::Link { mirror, selectors } ==> (called(Some(verb)) matches Ok(
            CallView::Link { selectors: named, mirror: onto },
        ) && named == texts(selectors@) && (onto is Some <==> mirror) && (mirror
            && selectors@.len() > 0 ==> onto == Some(selectors@[0]@))),
        verb matches Verb::Scene { args } ==> {
            &&& args@.len() == 1 ==> called(Some(verb)) == Ok::<CallView, Seq<char>>(
                CallView::ApplyScene(args@[0]@),
            )
            &&& args@.len() == 2 && args@[0]@ == "save"@ ==> called(Some(verb)) == Ok::<
                CallView,
                Seq<char>,
            >(CallView::SaveScene(args@[1]@))
            &&& args@.len() != 1 && !(args@.len() == 2 && args@[0]@ == "save"@) ==> called(
                Some(verb),
            ) is Err
        },
        verb matches Verb::Rescan ==> called(Some(verb)) == Ok::<CallView, Seq<char>>(
            CallView::Rescan,
        ),
        verb matches Verb::Watch { waybar } ==> called(Some(verb)) == Ok::<CallView, Seq<char>>(
            CallView::Watch { waybar },
        ),
{
    match verb {
        Verb::On { args } => {
            let given = divided(texts(args@)).1;
            assert((seq!["on"@] + given).skip(1) =~= given);
        },
        Verb::Off { args } => {
            let given = divided(texts(args@)).1;
            assert((seq!["off"@] + given).skip(1) =~= given);
        },
        Verb::Toggle { args } => {
            let given = divided(texts(args@)).1;
            assert((seq!["toggle"@] + given).skip(1) =~= given);
        },
        Verb::Scene { args } => {
            assert(texts(args@).len() == args@.len());
        },
        _ => {},
    }
}

/// The panel watches the panel's form and a terminal the line.
pub proof fn law_a_watcher_sees_its_own_form(lights: Seq<InfoView>)
    ensures
        shown(true, lights) == compact_text(waybar_tree(lights)),
        shown(false, lights) == line_text(lights),
{
}

/// A build is named by its best source: the packager's word for it if there is
/// one, else the commit, marked where the sources were edited, else nothing.
pub proof fn law_a_build_is_named_by_its_best_source(given: &str, commit: &str, dirty: bool)
    ensures
        trimmed(given@).len() > 0 ==> build_name(Some(given), Some(commit), dirty) == trimmed(
            given@,
        ) && build_name(Some(given), None, dirty) == trimmed(given@),
        trimmed(given@).len() == 0 ==> build_name(Some(given), Some(commit), dirty) == build_name(
            None,
            Some(commit),
            dirty,
        ) && build_name(Some(given), None, dirty) == "unknown"@,
        build_name(None, Some(commit), false) == "git"@ + commit@,
        build_name(None, Some(commit), true) == "git"@ + commit@ + "-dirty"@,
        build_name(None, None, dirty) == "unknown"@,
{
    reveal_strlit("");
    assert("git"@ + commit@ + ""@ =~= "git"@ + commit@);
}

/// The daemon starts when it is given no argument and never otherwise; of those it
/// does not take, it names the one it was given.
pub proof fn law_only_silence_starts_the_daemon(verb: DaemonVerb, arg: &str)
    ensures
        verb.answers(None) <==> verb is Run,
        verb.answers(Some(arg)) ==> !(verb is Run),
        verb.answers(Some(arg)) && verb is Version ==> arg@ == "--version"@ || arg@ == "-V"@,
        verb.answers(Some(arg)) && verb is Help ==> arg@ == "--help"@ || arg@ == "-h"@,
        verb.answers(Some(arg)) && verb is Unexpected ==> arg@ != "--version"@ && arg@ != "-V"@
            && arg@ != "--help"@ && arg@ != "-h"@ && (verb->Unexpected_0)@ == arg@,
        arg@ == "--version"@ || arg@ == "-V"@ ==> DaemonVerb::Version.answers(Some(arg)),
        arg@ == "--help"@ || arg@ == "-h"@ ==> DaemonVerb::Help.answers(Some(arg)),
{
    reveal_strlit("--version");
    reveal_strlit("-V");
    reveal_strlit("--help");
    reveal_strlit("-h");
    assert("--version"@.len() == 9 && "-V"@.len() == 2 && "--help"@.len() == 6 && "-h"@.len() == 2);
    assert("-V"@[1] != "-h"@[1]);
}

/// A person's own mistake is told them in the reply's words, and no other error is.
pub proof fn law_only_a_persons_mistake_is_told_plainly(name: Seq<char>, detail: &str)
    ensures
        told_plainly("org.freedesktop.DBus.Error.InvalidArgs"@, Some(detail)) == Some(detail@),
        name != "org.freedesktop.DBus.Error.InvalidArgs"@ ==> told_plainly(name, Some(detail))
            is None,
        told_plainly(name, None) is None,
{
}

/// A watcher prints what changed and never the same thing twice running.
pub proof fn law_nothing_is_printed_twice(previous: Seq<char>, rendered: Seq<char>)
    ensures
        news_in(previous, rendered) is Some <==> previous != rendered,
        news_in(previous, rendered) matches Some(printed) ==> printed == rendered,
        news_in(rendered, rendered) is None,
{
}

/// A command that names no value is told so, with the selector it gave.
pub proof fn law_a_command_without_a_value_is_told_what_to_add(args: Seq<Seq<char>>)
    ensures
        commanded(args, None) matches Err(selector) ==> (state_call(args, None) matches Err(message)
            && occurs_in("`gaffer set "@ + selector + " 42%`"@, message)),
{
    if let Err(selector) = commanded(args, None) {
        let told = "nothing to set — try `gaffer set "@;
        let example = "`gaffer set "@ + selector + " 42%`"@;
        reveal_strlit("nothing to set — try `gaffer set ");
        reveal_strlit("`gaffer set ");
        assert(told =~= told.take(told.len() - 12) + "`gaffer set "@);
        let opening = told.take(told.len() - 12);
        assert(told + selector + " 42%`"@ =~= opening + example + seq![]);
        law_a_text_occurs_where_it_stands(opening, example, seq![], seq![]);
    }
}

} // verus!
