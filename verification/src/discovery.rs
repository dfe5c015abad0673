//! Finding lights on the network.
//!
//! The wire format, TTL expiry, goodbye packets, the cache-flush bit, IPv6 and
//! interface hotplug are the mDNS library's business; here its records become
//! [`Discovered`] lights.
//!
//! The one piece of domain knowledge that stays here: lights are keyed on the
//! TXT `id=` field, which is the hardware MAC, **not** the mDNS instance name.
//! Renaming a light in Elgato's app changes the instance name, and keying on it
//! would make the same physical light appear as a second device.

use vstd::prelude::*;
use vstd::string::*;

use crate::endpoint::{address_before, Address};
use crate::names::NameMap;
use crate::strings::{ascii_alphanumeric, ascii_digit, chars_of, control, find_in, found_at,
    is_ascii_digit, occurs_in, part, string_of};
use crate::text::{canonical, law_canonical_id_is_stable, law_sanitized_text_is_displayable,
    normalize_id, normalized, sanitize, sanitized, MAX_DISPLAY_LEN};

verus! {

broadcast use vstd::string::group_string_axioms;

/// The mDNS service type Elgato Key Lights advertise.
pub const ELGATO_SERVICE: &'static str = "_elg._tcp.local.";

/// Fallback port if a light advertises an SRV record without one.
pub const DEFAULT_PORT: u16 = 9123;

/// How long an explicit re-probe waits for an answer, in milliseconds.
pub const VERIFY_TIMEOUT_MS: u64 = 2_000;

/// A resolved mDNS service, as far as the daemon reads it.
#[derive(Debug)]
pub struct ServiceRecord {
    /// mDNS instance fullname.
    pub fullname: String,
    /// The TXT `id=` field.
    pub id: Option<String>,
    /// The TXT `md=` field.
    pub model: Option<String>,
    pub addresses: Vec<Address>,
    /// The port of the SRV record; zero when it has none.
    pub port: u16,
}

/// A light seen on the network.
///
/// Every string here has already been canonicalised or sanitised: an mDNS
/// record is attacker-controlled, and this is the boundary where that stops
/// being true.
#[derive(Debug, PartialEq, Eq)]
pub struct Discovered {
    /// Canonical hardware id, from the TXT `id=` field.
    pub id: String,
    /// mDNS instance fullname, for re-probing.
    pub fullname: String,
    /// Human-readable name derived from the instance name. Superseded by the
    /// device's own `displayName` once accessory-info has been fetched.
    pub name: String,
    /// Model from the TXT `md=` field.
    pub model: String,
    pub addr: Address,
    pub port: u16,
}

/// A [`Discovered`] light as mathematics.
#[verifier::ext_equal]
pub struct DiscoveredView {
    pub id: Seq<char>,
    pub fullname: Seq<char>,
    pub name: Seq<char>,
    pub model: Seq<char>,
    pub addr: Address,
    pub port: u16,
}

impl View for Discovered {
    type V = DiscoveredView;

    open spec fn view(&self) -> DiscoveredView {
        DiscoveredView {
            id: self.id@,
            fullname: self.fullname@,
            name: self.name@,
            model: self.model@,
            addr: self.addr,
            port: self.port,
        }
    }
}

impl Clone for Discovered {
    fn clone(&self) -> (r: Self)
        ensures
            r@ == self@,
    {
        Discovered {
            id: self.id.clone(),
            fullname: self.fullname.clone(),
            name: self.name.clone(),
            model: self.model.clone(),
            addr: self.addr,
            port: self.port,
        }
    }
}

/// Something changed on the network.
#[derive(Debug)]
pub enum DiscoveryEvent {
    Found(Box<Discovered>),
    /// A light went away — by goodbye packet or TTL expiry.
    Lost(String),
}

impl Clone for DiscoveryEvent {
    fn clone(&self) -> (r: Self)
        ensures
            match *self {
                DiscoveryEvent::Found(found) => r matches DiscoveryEvent::Found(copy) && copy@
                    == found@,
                DiscoveryEvent::Lost(id) => r matches DiscoveryEvent::Lost(copy) && copy@ == id@,
            },
    {
        match self {
            DiscoveryEvent::Found(found) => {
                let copy: Discovered = (**found).clone();
                DiscoveryEvent::Found(Box::new(copy))
            },
            DiscoveryEvent::Lost(id) => DiscoveryEvent::Lost(id.clone()),
        }
    }
}

/// What a browse reports.
#[derive(Debug)]
pub enum ServiceNews {
    /// A service resolved, perhaps not for the first time.
    Resolved(ServiceRecord),
    /// The service of this fullname is gone.
    Removed(String),
    /// Anything else a browse goes through.
    Other,
}

/// The smallest of several addresses. IPv4 sorts before IPv6, so an IPv6 address
/// is taken only when that is all the device offers.
pub open spec fn smallest(addresses: Seq<Address>) -> Option<Address>
    decreases addresses.len(),
{
    if addresses.len() == 0 {
        None
    } else {
        match smallest(addresses.drop_last()) {
            Some(best) => if address_before(addresses.last(), best) {
                Some(addresses.last())
            } else {
                Some(best)
            },
            None => Some(addresses.last()),
        }
    }
}

/// Where a text first holds another.
pub open spec fn first_found(text: Seq<char>, needle: Seq<char>) -> int {
    choose|at: int|
        found_at(text, needle, at) && forall|earlier: int|
            0 <= earlier < at ==> !found_at(text, needle, earlier)
}

/// The instance part of an mDNS fullname, escapes and all.
pub open spec fn instance_label(fullname: Seq<char>) -> Seq<char> {
    if occurs_in("._elg._tcp"@, fullname) {
        fullname.take(first_found(fullname, "._elg._tcp"@))
    } else {
        fullname
    }
}

/// The number that the first three characters of a text spell.
pub open spec fn three_digits(text: Seq<char>) -> int {
    (text[0] as int - '0' as int) * 100 + (text[1] as int - '0' as int) * 10 + (text[2] as int
        - '0' as int)
}

/// Whether a text starts with a decimal escape: three digits that encode one
/// byte.
pub open spec fn decimal_escape(text: Seq<char>) -> bool {
    &&& text.len() >= 3
    &&& ascii_digit(text[0])
    &&& ascii_digit(text[1])
    &&& ascii_digit(text[2])
    &&& three_digits(text) <= 255
}

/// A DNS label with its `\DDD` decimal escapes and `\.`-style literals decoded.
pub open spec fn unescaped(label: Seq<char>) -> Seq<char>
    decreases label.len(),
{
    if label.len() == 0 {
        seq![]
    } else {
        let rest = label.drop_first();
        if label[0] != '\\' {
            seq![label[0]] + unescaped(rest)
        } else if decimal_escape(rest) {
            seq![three_digits(rest) as char] + unescaped(rest.skip(3))
        } else if rest.len() > 0 {
            seq![rest[0]] + unescaped(rest.drop_first())
        } else {
            seq![]
        }
    }
}

/// What a resolved service tells about a light, if it tells enough to talk to
/// it: an id with something usable in it, and an address.
pub open spec fn resolved(service: ServiceRecord) -> Option<DiscoveredView> {
    let raw_id = match service.id {
        Some(id) => id@,
        None => seq![],
    };
    match (normalized(raw_id), smallest(service.addresses@)) {
        (Some(id), Some(addr)) => Some(
            DiscoveredView {
                id,
                fullname: service.fullname@,
                name: sanitized(unescaped(instance_label(service.fullname@))),
                model: sanitized(
                    match service.model {
                        Some(model) => model@,
                        None => seq![],
                    },
                ),
                addr,
                port: if service.port == 0 {
                    DEFAULT_PORT
                } else {
                    service.port
                },
            },
        ),
        _ => None,
    }
}

fn smallest_of(addresses: &Vec<Address>) -> (r: Option<Address>)
    ensures
        r == smallest(addresses@),
{
    let mut best: Option<Address> = None;
    let mut i: usize = 0;
    assert(addresses@.take(0) =~= Seq::empty());
    while i < addresses.len()
        invariant
            i <= addresses@.len(),
            best == smallest(addresses@.take(i as int)),
        decreases addresses@.len() - i,
    {
        proof {
            assert(addresses@.take(i + 1).drop_last() =~= addresses@.take(i as int));
        }
        let here = addresses[i];
        best =
            match best {
                Some(known) => if here.is_before(known) {
                    Some(here)
                } else {
                    Some(known)
                },
                None => Some(here),
            };
        i += 1;
    }
    assert(addresses@.take(i as int) =~= addresses@);
    best
}

/// Turn a resolved mDNS service into a [`Discovered`], or `None` if it lacks
/// what we need to talk to it.
pub fn resolve(service: &ServiceRecord) -> (r: Option<Discovered>)
    ensures
        match r {
            Some(found) => resolved(*service) == Some(found@),
            None => resolved(*service) is None,
        },
{
    // Canonicalise rather than trust: devices punctuate MACs inconsistently,
    // and two spellings of one id would otherwise become two records that
    // collide on a single D-Bus object path. Also rejects an id with no usable
    // characters, which would produce the invalid path `…/lights/`.
    let empty = String::new();
    assert(empty@ =~= seq![]);
    let raw_id = match &service.id {
        Some(id) => id.as_str(),
        None => empty.as_str(),
    };
    let id = match normalize_id(raw_id) {
        Some(id) => id,
        None => return None,
    };
    // A resolved address is required; the SRV target name is never used to
    // build a URL. Prefer IPv4, and accept IPv6 only when that is all the
    // device offers.
    let addr = match smallest_of(&service.addresses) {
        Some(addr) => addr,
        None => return None,
    };
    let model = match &service.model {
        Some(model) => model.as_str(),
        None => empty.as_str(),
    };
    Some(
        Discovered {
            id,
            fullname: service.fullname.clone(),
            // Sanitised: an instance label carries raw bytes off the wire, so
            // this is where a control character stops being able to reach a
            // terminal.
            name: sanitize(instance_name(service.fullname.as_str()).as_str()),
            model: sanitize(model),
            addr,
            port: if service.port == 0 {
                DEFAULT_PORT
            } else {
                service.port
            },
        },
    )
}

/// Extract a display name from an mDNS fullname.
///
/// `Elgato\032Key\032Light\032Left._elg._tcp.local.` becomes
/// `Elgato Key Light Left`. Escapes are DNS decimal (`\032`), not C-style.
pub fn instance_name(fullname: &str) -> (r: String)
    ensures
        r@ == unescaped(instance_label(fullname@)),
{
    let chars = chars_of(fullname);
    let marker = chars_of("._elg._tcp");
    match find_in(chars.as_slice(), marker.as_slice()) {
        Some(at) => {
            proof {
                let first = first_found(fullname@, "._elg._tcp"@);
                assert(found_at(fullname@, "._elg._tcp"@, at as int));
                assert(first == at) by {
                    assert(found_at(fullname@, "._elg._tcp"@, first));
                    assert(first < at ==> !found_at(fullname@, "._elg._tcp"@, first));
                    assert(at < first ==> !found_at(fullname@, "._elg._tcp"@, at as int));
                }
            }
            let head = part(chars.as_slice(), 0, at);
            assert(head@ =~= fullname@.take(at as int));
            let label = string_of(head.as_slice());
            unescape(label.as_str())
        },
        None => unescape(fullname),
    }
}

/// Decode DNS `\DDD` decimal escapes and `\.`-style literals.
pub fn unescape(label: &str) -> (r: String)
    ensures
        r@ == unescaped(label@),
{
    let chars = chars_of(label);
    let mut out = String::new();
    let mut i: usize = 0;
    assert(label@.skip(0) =~= label@);
    assert(out@ + unescaped(label@.skip(0)) =~= unescaped(label@));
    while i < chars.len()
        invariant
            i <= chars@.len(),
            chars@ == label@,
            out@ + unescaped(label@.skip(i as int)) == unescaped(label@),
        decreases chars@.len() - i,
    {
        let ghost here = label@.skip(i as int);
        let ghost rest = label@.skip(i + 1);
        let ghost before = out@;
        assert(here.drop_first() =~= rest);
        assert(here[0] == chars@[i as int]);
        if chars[i] != '\\' {
            out.push(chars[i]);
            i += 1;
            assert(out@ + unescaped(rest) =~= before + (seq![here[0]] + unescaped(rest)));
            continue ;
        }
        // A decimal escape is three digits and encodes one byte.
        if chars.len() - i > 3 && is_ascii_digit(chars[i + 1]) && is_ascii_digit(chars[i + 2])
            && is_ascii_digit(chars[i + 3]) {
            let value: u32 = (chars[i + 1] as u32 - 48) * 100 + (chars[i + 2] as u32 - 48) * 10 + (
            chars[i + 3] as u32 - 48);
            assert(value == three_digits(rest));
            if value <= 255 {
                out.push(value as u8 as char);
                assert(rest.skip(3) =~= label@.skip(i + 4));
                i += 4;
                assert(out@ + unescaped(label@.skip(i as int)) =~= before + (seq![
                    three_digits(rest) as char,
                ] + unescaped(rest.skip(3))));
                continue ;
            }
        }
        assert(!decimal_escape(rest));
        if i + 1 < chars.len() {
            out.push(chars[i + 1]);  // `\.` and friends
            assert(rest.drop_first() =~= label@.skip(i + 2));
            i += 2;
            assert(out@ + unescaped(label@.skip(i as int)) =~= before + (seq![rest[0]]
                + unescaped(rest.drop_first())));
        } else {
            i += 1;
            assert(out@ + unescaped(label@.skip(i as int)) =~= before + seq![]);
        }
    }
    assert(label@.skip(i as int) =~= Seq::empty());
    assert(out@ =~= unescaped(label@));
    out
}

/// Which light each known mDNS instance is.
///
/// Removal events identify a service by fullname, but the rest of the daemon
/// speaks in hardware ids, so the mapping is kept here.
#[derive(Debug)]
pub struct Sightings {
    ids: NameMap<String>,
}

impl View for Sightings {
    type V = Map<Seq<char>, Seq<char>>;

    closed spec fn view(&self) -> Map<Seq<char>, Seq<char>> {
        self.ids@
    }
}

/// The names seen, once a service was resolved.
pub open spec fn noted(ids: Map<Seq<char>, Seq<char>>, service: ServiceRecord) -> Map<
    Seq<char>,
    Seq<char>,
> {
    match resolved(service) {
        Some(found) => ids.insert(found.fullname, found.id),
        None => ids,
    }
}

/// Whether a light is seen for the first time.
pub open spec fn first_seen(ids: Map<Seq<char>, Seq<char>>, found: DiscoveredView) -> bool {
    !ids.contains_key(found.fullname)
}

impl Sightings {
    /// Nothing seen yet.
    pub fn new() -> (r: Self)
        ensures
            r@ == Map::<Seq<char>, Seq<char>>::empty(),
    {
        Sightings { ids: NameMap::new() }
    }

    /// Take note of a resolved service.
    ///
    /// mDNS re-resolves the same instance repeatedly, so the flag says whether
    /// this is the first sighting; otherwise a perfectly stable network fills
    /// the journal with duplicate "discovered" lines.
    pub fn on_resolved(&mut self, service: &ServiceRecord) -> (r: Option<(Discovered, bool)>)
        ensures
            final(self)@ == noted(old(self)@, *service),
            match resolved(*service) {
                Some(found) => r matches Some((light, first)) && light@ == found && first
                    == first_seen(old(self)@, found),
                None => r is None,
            },
    {
        match resolve(service) {
            Some(found) => {
                let first = self.ids.insert(found.fullname.clone(), found.id.clone()).is_none();
                Some((found, first))
            },
            None => None,
        }
    }

    /// Take note of a service that went away, returning the light it was.
    pub fn on_removed(&mut self, fullname: &str) -> (r: Option<String>)
        ensures
            final(self)@ == old(self)@.remove(fullname@),
            match r {
                Some(id) => old(self)@.contains_key(fullname@) && id@ == old(self)@[fullname@],
                None => !old(self)@.contains_key(fullname@),
            },
    {
        self.ids.remove(fullname)
    }

    /// Turn what the browse reports into what the supervisor is told.
    ///
    /// The flag says whether the event is news: a light found for the first time
    /// or one that went away, as opposed to one that was merely resolved again.
    pub fn on_event(&mut self, event: &ServiceNews) -> (r: Option<(DiscoveryEvent, bool)>)
        ensures
            match event {
                ServiceNews::Resolved(service) => {
                    &&& final(self)@ == noted(old(self)@, *service)
                    &&& match resolved(*service) {
                        Some(found) => r matches Some((DiscoveryEvent::Found(light), first))
                            && light@ == found && first == first_seen(old(self)@, found),
                        None => r is None,
                    }
                },
                ServiceNews::Removed(fullname) => {
                    &&& final(self)@ == old(self)@.remove(fullname@)
                    &&& r is Some <==> old(self)@.contains_key(fullname@)
                    &&& r is Some ==> (r matches Some((DiscoveryEvent::Lost(id), news)) && id@
                        == old(self)@[fullname@] && news)
                },
                ServiceNews::Other => final(self)@ == old(self)@ && r is None,
            },
    {
        match event {
            ServiceNews::Resolved(service) => match self.on_resolved(service) {
                Some((found, first)) => Some((DiscoveryEvent::Found(Box::new(found)), first)),
                None => None,
            },
            ServiceNews::Removed(fullname) => match self.on_removed(fullname.as_str()) {
                Some(id) => Some((DiscoveryEvent::Lost(id), true)),
                None => None,
            },
            ServiceNews::Other => None,
        }
    }
}

/// Whatever is advertised, a discovered light's id is a non-empty run of letters
/// and digits, and its name and model are fit to show.
pub proof fn law_a_discovered_light_is_safe_to_show(service: ServiceRecord)
    requires
        resolved(service) is Some,
    ensures
        ({
            let found = resolved(service)->0;
            &&& found.id.len() > 0
            &&& forall|i: int|
                0 <= i < found.id.len() ==> ascii_alphanumeric(#[trigger] found.id[i])
            &&& forall|i: int| 0 <= i < found.name.len() ==> !control(#[trigger] found.name[i])
            &&& found.name.len() <= MAX_DISPLAY_LEN
            &&& forall|i: int| 0 <= i < found.model.len() ==> !control(#[trigger] found.model[i])
            &&& found.model.len() <= MAX_DISPLAY_LEN
        }),
{
    let raw_id = match service.id {
        Some(id) => id@,
        None => seq![],
    };
    law_canonical_id_is_stable(raw_id);
    law_sanitized_text_is_displayable(unescaped(instance_label(service.fullname@)));
    law_sanitized_text_is_displayable(
        match service.model {
            Some(model) => model@,
            None => seq![],
        },
    );
}

/// The same hardware is the same light, whatever its instance is called and
/// however its id is punctuated.
pub proof fn law_renaming_does_not_make_a_stranger(a: ServiceRecord, b: ServiceRecord)
    requires
        resolved(a) is Some,
        resolved(b) is Some,
        a.id is Some,
        b.id is Some,
        canonical((a.id->0)@) == canonical((b.id->0)@),
    ensures
        (resolved(a)->0).id == (resolved(b)->0).id,
{
}

/// A service without an address is ignored, and one with an IPv4 address is
/// reached over IPv4.
pub proof fn law_ipv4_is_preferred(addresses: Seq<Address>)
    ensures
        smallest(addresses) is None <==> addresses.len() == 0,
        smallest(addresses) matches Some(best) ==> addresses.contains(best) && forall|i: int|
            0 <= i < addresses.len() ==> !address_before(#[trigger] addresses[i], best),
        (exists|i: int| 0 <= i < addresses.len() && (#[trigger] addresses[i]) is V4)
            ==> smallest(addresses) matches Some(Address::V4(_)),
    decreases addresses.len(),
{
    if addresses.len() > 0 {
        let short = addresses.drop_last();
        law_ipv4_is_preferred(short);
        let best = smallest(addresses)->0;
        if short.len() > 0 {
            let known = smallest(short)->0;
            let k = choose|k: int| 0 <= k < short.len() && short[k] == known;
            assert(addresses[k] == known);
        }
        assert(addresses[addresses.len() - 1] == addresses.last());
        assert forall|i: int| 0 <= i < addresses.len() implies !address_before(
            #[trigger] addresses[i],
            best,
        ) by {
            if i < short.len() {
                assert(short[i] == addresses[i]);
                assert(!address_before(short[i], smallest(short)->0));
            }
        }
    }
}

/// A service is a light exactly when it gives an id with something usable in it and
/// an address. The light goes by that id in canonical form, at the smallest of its
/// addresses and at the port it gives, or the usual one if it gives none.
pub proof fn law_a_service_with_an_id_and_an_address_is_a_light(service: ServiceRecord)
    ensures
        resolved(service) is Some <==> service.id is Some && canonical((service.id->0)@).len() > 0
            && service.addresses@.len() > 0,
        resolved(service) matches Some(found) ==> {
            &&& found.id == canonical((service.id->0)@)
            &&& found.fullname == service.fullname@
            &&& Some(found.addr) == smallest(service.addresses@)
            &&& service.port != 0 ==> found.port == service.port
            &&& service.port == 0 ==> found.port == 9123
            &&& found.name == sanitized(unescaped(instance_label(service.fullname@)))
            &&& service.model matches Some(model) ==> found.model == sanitized(model@)
            &&& service.model is None ==> found.model == sanitized(seq![])
        },
{
    law_ipv4_is_preferred(service.addresses@);
    reveal(Seq::filter);
    assert(canonical(Seq::empty()).len() == 0);
}

/// Of several addresses the smallest is taken: any IPv4 address before any IPv6
/// address, and the lower number of two of a kind.
pub proof fn law_the_smallest_address_is_taken(addresses: Seq<Address>, i: int)
    requires
        0 <= i < addresses.len(),
    ensures
        smallest(addresses) matches Some(best) && addresses.contains(best) && match (
            best,
            addresses[i],
        ) {
            (Address::V4(a), Address::V4(b)) => a <= b,
            (Address::V4(_), Address::V6(_)) => true,
            (Address::V6(_), Address::V4(_)) => false,
            (Address::V6(a), Address::V6(b)) => a <= b,
        },
{
    law_ipv4_is_preferred(addresses);
    let best = smallest(addresses)->0;
    assert(!address_before(addresses[i], best));
}

/// An instance is named by what stands before the service's type, and by all of it
/// where no type follows.
pub proof fn law_an_instance_is_named_before_its_type(name: Seq<char>, rest: Seq<char>)
    requires
        !occurs_in("._elg._tcp"@, name),
        forall|at: int|
            0 <= at < name.len() ==> !found_at(name + "._elg._tcp"@ + rest, "._elg._tcp"@, at),
    ensures
        instance_label(name) == name,
        instance_label(name + "._elg._tcp"@ + rest) == name,
{
    let kind = "._elg._tcp"@;
    let whole = name + kind + rest;
    assert(whole.subrange(name.len() as int, name.len() + kind.len() as int) =~= kind);
    assert(found_at(whole, kind, name.len() as int));
    let at = first_found(whole, kind);
    assert(found_at(whole, kind, at) && forall|earlier: int|
        0 <= earlier < at ==> !found_at(whole, kind, earlier)) by {
        let n = name.len() as int;
        assert(found_at(whole, kind, n) && forall|earlier: int|
            0 <= earlier < n ==> !found_at(whole, kind, earlier));
    }
    assert(at == name.len());
    assert(whole.take(at) =~= name);
}

/// Text without a backslash is its own unescaped form.
pub proof fn law_plain_text_needs_no_unescaping(text: Seq<char>, rest: Seq<char>)
    requires
        !text.contains('\\'),
    ensures
        unescaped(text) == text,
        unescaped(text + rest) == text + unescaped(rest),
    decreases text.len(),
{
    if text.len() == 0 {
        assert(text + rest =~= rest);
        assert(text + unescaped(rest) =~= unescaped(rest));
        assert(unescaped(text) =~= text);
    } else {
        let tail = text.drop_first();
        assert(text[0] != '\\') by {
            assert(text.contains(text[0]));
        }
        assert(!tail.contains('\\')) by {
            if tail.contains('\\') {
                let k = choose|k: int| 0 <= k < tail.len() && tail[k] == '\\';
                assert(text[k + 1] == '\\');
            }
        }
        law_plain_text_needs_no_unescaping(tail, rest);
        assert((text + rest).drop_first() =~= tail + rest);
        assert((text + rest)[0] == text[0]);
        assert(seq![text[0]] + tail =~= text);
        assert(seq![text[0]] + (tail + unescaped(rest)) =~= text + unescaped(rest));
    }
}

/// A backslash before three digits that make up to 255 stands for the character of
/// that number, a backslash before anything else for that itself, and a backslash
/// at the end for nothing.
pub proof fn law_escapes_stand_for_characters(a: char, b: char, c: char, rest: Seq<char>)
    ensures
        ({
            let number = (a as int - 48) * 100 + (b as int - 48) * 10 + (c as int - 48);
            let digits = '0' <= a <= '9' && '0' <= b <= '9' && '0' <= c <= '9';
            &&& digits && number <= 255 ==> unescaped(seq!['\\', a, b, c] + rest) == seq![
                number as char,
            ] + unescaped(rest)
        }),
        !('0' <= a <= '9') ==> unescaped(seq!['\\', a] + rest) == seq![a] + unescaped(rest),
        unescaped(seq!['\\']).len() == 0,
{
    let numbered = seq!['\\', a, b, c] + rest;
    assert(numbered.drop_first() =~= seq![a, b, c] + rest);
    assert(numbered.drop_first().skip(3) =~= rest);
    let plain = seq!['\\', a] + rest;
    assert(plain.drop_first() =~= seq![a] + rest);
    assert(plain.drop_first().drop_first() =~= rest);
    let lone = seq!['\\'];
    assert(lone.drop_first() =~= Seq::empty());
}

/// A light is news once: it is known by its service's name from then on, whatever
/// goes away under that name is that light, and it is news again only after that.
pub proof fn law_a_light_is_news_once(
    ids: Map<Seq<char>, Seq<char>>,
    service: ServiceRecord,
    other: Seq<char>,
)
    ensures
        resolved(service) is None ==> noted(ids, service) == ids,
        resolved(service) matches Some(found) ==> {
            &&& first_seen(ids, found) <==> !ids.contains_key(found.fullname)
            &&& noted(ids, service).contains_key(found.fullname)
            &&& noted(ids, service)[found.fullname] == found.id
            &&& !first_seen(noted(ids, service), found)
            &&& first_seen(noted(ids, service).remove(found.fullname), found)
            &&& noted(noted(ids, service), service) == noted(ids, service)
            &&& other != found.fullname ==> (noted(ids, service).contains_key(other)
                <==> ids.contains_key(other)) && noted(ids, service)[other] == ids[other]
        },
{
}

} // verus!
