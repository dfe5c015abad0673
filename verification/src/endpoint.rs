//! Where a light's HTTP API lives.

use vstd::prelude::*;
use vstd::string::*;

use crate::strings::{decimal, numeral, push_decimal, push_numeral};

verus! {

broadcast use vstd::string::group_string_axioms;

/// An IP address.
#[derive(Clone, Copy, Debug, PartialEq, Eq, Structural)]
pub enum Address {
    V4(u32),
    V6(u128),
}

/// The eight sixteen-bit groups of an IPv6 address, most significant first.
pub open spec fn groups(bits: u128) -> Seq<int> {
    let n = bits as int;
    seq![
        (n / 0x1_0000_0000_0000_0000_0000_0000_0000) % 0x1_0000,
        (n / 0x1_0000_0000_0000_0000_0000_0000) % 0x1_0000,
        (n / 0x1_0000_0000_0000_0000_0000) % 0x1_0000,
        (n / 0x1_0000_0000_0000_0000) % 0x1_0000,
        (n / 0x1_0000_0000_0000) % 0x1_0000,
        (n / 0x1_0000_0000) % 0x1_0000,
        (n / 0x1_0000) % 0x1_0000,
        n % 0x1_0000,
    ]
}

/// An IPv4 address in dotted decimal.
pub open spec fn dotted(bits: int) -> Seq<char> {
    decimal(bits / 0x100_0000) + "."@ + decimal((bits / 0x1_0000) % 0x100) + "."@ + decimal(
        (bits / 0x100) % 0x100,
    ) + "."@ + decimal(bits % 0x100)
}

/// Groups in hexadecimal with colons between them, from `lo` up to `hi`.
pub open spec fn colons(parts: Seq<int>, lo: int, hi: int) -> Seq<char>
    decreases hi - lo,
{
    if hi <= lo {
        seq![]
    } else if hi == lo + 1 {
        numeral(parts[lo], 16, false)
    } else {
        colons(parts, lo, hi - 1) + ":"@ + numeral(parts[hi - 1], 16, false)
    }
}

/// How many groups are zero from here on without a break.
pub open spec fn zeros_from(parts: Seq<int>, start: int) -> int
    decreases parts.len() - start,
{
    if start < 0 || start >= parts.len() || parts[start] != 0 {
        0
    } else {
        1 + zeros_from(parts, start + 1)
    }
}

/// Where the longest run of zero groups starts, the first of them on a tie.
pub open spec fn longest_run(parts: Seq<int>, n: int) -> int
    decreases n,
{
    if n <= 0 {
        0
    } else {
        let best = longest_run(parts, n - 1);
        if zeros_from(parts, n - 1) > zeros_from(parts, best) {
            n - 1
        } else {
            best
        }
    }
}

/// Whether an IPv6 address stands for an IPv4 one.
pub open spec fn stands_for_v4(bits: u128) -> bool {
    bits as int / 0x1_0000_0000 == 0xffff
}

/// The canonical text of an address: dotted decimal for IPv4; for IPv6 lower
/// case hexadecimal groups, the longest run of two or more zero groups left
/// out, and an IPv4 address that is mapped into it kept in dotted form.
pub open spec fn address_text(address: Address) -> Seq<char> {
    match address {
        Address::V4(bits) => dotted(bits as int),
        Address::V6(bits) => {
            let parts = groups(bits);
            let start = longest_run(parts, 8);
            let len = zeros_from(parts, start);
            if stands_for_v4(bits) {
                "::ffff:"@ + dotted(bits as int % 0x1_0000_0000)
            } else if len > 1 {
                colons(parts, 0, start) + "::"@ + colons(parts, start + len, 8)
            } else {
                colons(parts, 0, 8)
            }
        },
    }
}

fn push_dotted(out: &mut String, bits: u32)
    ensures
        final(out)@ == old(out)@ + dotted(bits as int),
{
    push_decimal(out, (bits / 0x100_0000) as i64);
    out.append(".");
    push_decimal(out, ((bits / 0x1_0000) % 0x100) as i64);
    out.append(".");
    push_decimal(out, ((bits / 0x100) % 0x100) as i64);
    out.append(".");
    push_decimal(out, (bits % 0x100) as i64);
    assert(out@ =~= old(out)@ + dotted(bits as int));
}

fn group_list(bits: u128) -> (r: Vec<u64>)
    ensures
        r@.len() == 8,
        forall|i: int| 0 <= i < 8 ==> #[trigger] r@[i] as int == groups(bits)[i],
        forall|i: int| 0 <= i < 8 ==> #[trigger] r@[i] < 0x1_0000,
{
    let mut out: Vec<u64> = Vec::new();
    out.push(((bits / 0x1_0000_0000_0000_0000_0000_0000_0000) % 0x1_0000) as u64);
    out.push(((bits / 0x1_0000_0000_0000_0000_0000_0000) % 0x1_0000) as u64);
    out.push(((bits / 0x1_0000_0000_0000_0000_0000) % 0x1_0000) as u64);
    out.push(((bits / 0x1_0000_0000_0000_0000) % 0x1_0000) as u64);
    out.push(((bits / 0x1_0000_0000_0000) % 0x1_0000) as u64);
    out.push(((bits / 0x1_0000_0000) % 0x1_0000) as u64);
    out.push(((bits / 0x1_0000) % 0x1_0000) as u64);
    out.push((bits % 0x1_0000) as u64);
    out
}

/// What a list of machine integers holds.
spec fn as_ints(parts: Seq<u64>) -> Seq<int> {
    parts.map_values(|part: u64| part as int)
}

fn push_colons(out: &mut String, parts: &Vec<u64>, lo: usize, hi: usize)
    requires
        lo <= hi <= parts@.len(),
    ensures
        final(out)@ == old(out)@ + colons(as_ints(parts@), lo as int, hi as int),
{
    let mut i: usize = lo;
    assert(out@ =~= old(out)@ + colons(as_ints(parts@), lo as int, lo as int));
    while i < hi
        invariant
            lo <= i <= hi <= parts@.len(),
            out@ == old(out)@ + colons(as_ints(parts@), lo as int, i as int),
        decreases hi - i,
    {
        if i > lo {
            out.append(":");
        }
        push_numeral(out, parts[i], 16, false);
        i += 1;
        assert(out@ =~= old(out)@ + colons(as_ints(parts@), lo as int, i as int));
    }
}

fn count_zeros(parts: &Vec<u64>, start: usize) -> (r: usize)
    requires
        start <= parts@.len(),
    ensures
        r == zeros_from(as_ints(parts@), start as int),
        start + r <= parts@.len(),
    decreases parts@.len() - start,
{
    if start >= parts.len() || parts[start] != 0 {
        0
    } else {
        1 + count_zeros(parts, start + 1)
    }
}

/// Append an address in its canonical text form.
fn push_address(out: &mut String, address: Address)
    ensures
        final(out)@ == old(out)@ + address_text(address),
{
    match address {
        Address::V4(bits) => {
            push_dotted(out, bits);
        },
        Address::V6(bits) => {
            if bits / 0x1_0000_0000 == 0xffff {
                out.append("::ffff:");
                push_dotted(out, (bits % 0x1_0000_0000) as u32);
                assert(out@ =~= old(out)@ + address_text(address));
                return;
            }
            let parts = group_list(bits);
            let ghost all = as_ints(parts@);
            assert(all =~= groups(bits));
            let mut start: usize = 0;
            let mut len: usize = count_zeros(&parts, 0);
            let mut n: usize = 1;
            proof {
                reveal_with_fuel(longest_run, 2);
            }
            while n < 8
                invariant
                    1 <= n <= 8,
                    parts@.len() == 8,
                    all == as_ints(parts@),
                    start == longest_run(all, n as int),
                    start < n,
                    len == zeros_from(all, start as int),
                    start + len <= 8,
                decreases 8 - n,
            {
                let here: usize = count_zeros(&parts, n);
                if here > len {
                    start = n;
                    len = here;
                }
                n += 1;
            }
            if len > 1 {
                push_colons(out, &parts, 0, start);
                out.append("::");
                push_colons(out, &parts, start + len, 8);
            } else {
                push_colons(out, &parts, 0, 8);
            }
            assert(out@ =~= old(out)@ + address_text(address));
        },
    }
}

/// Whether one address is smaller than another: every IPv4 address comes before
/// every IPv6 one, and within a family they go by their number.
pub open spec fn address_before(a: Address, b: Address) -> bool {
    match (a, b) {
        (Address::V4(x), Address::V4(y)) => x < y,
        (Address::V4(_), Address::V6(_)) => true,
        (Address::V6(_), Address::V4(_)) => false,
        (Address::V6(x), Address::V6(y)) => x < y,
    }
}

impl Address {
    /// Is this address smaller than another?
    pub fn is_before(self, other: Address) -> (r: bool)
        ensures
            r == address_before(self, other),
    {
        match (self, other) {
            (Address::V4(x), Address::V4(y)) => x < y,
            (Address::V4(_), Address::V6(_)) => true,
            (Address::V6(_), Address::V4(_)) => false,
            (Address::V6(x), Address::V6(y)) => x < y,
        }
    }

    /// The address in its canonical text form.
    pub fn to_text(self) -> (r: String)
        ensures
            r@ == address_text(self),
    {
        let mut out = String::new();
        push_address(&mut out, self);
        assert(out@ =~= address_text(self));
        out
    }
}

/// Where a light's HTTP API lives.
///
/// Deliberately holds a parsed address and never a hostname. mDNS never
/// validates the characters in a received name, so formatting one into a URL
/// would let an advertisement with the target `127.0.0.1:11434/api/pull#` aim
/// the daemon's requests at an arbitrary path on a loopback service.
///
/// An address cannot express a path, a query or a userinfo section, so the
/// whole class is gone rather than filtered — which matters, because the
/// obvious filter (requiring a `.local.` suffix) does not work: `#` and `?`
/// terminate the authority before any suffix is examined.
#[derive(Clone, Copy, Debug, PartialEq, Eq, Structural)]
pub struct Endpoint {
    pub addr: Address,
    pub port: u16,
}

impl Endpoint {
    /// Where the API is reached: the address and the port, nothing else.
    pub open spec fn authority(self) -> Seq<char> {
        match self.addr {
            // IPv6 literals need brackets, or the colons read as a port.
            Address::V6(_) => "["@ + address_text(self.addr) + "]:"@ + decimal(self.port as int),
            Address::V4(_) => address_text(self.addr) + ":"@ + decimal(self.port as int),
        }
    }

    /// The base URL.
    pub open spec fn url(self) -> Seq<char> {
        "http://"@ + self.authority()
    }

    /// Base URL for this light's HTTP API.
    ///
    /// Every component is structurally constrained: a parsed address and a
    /// `u16`. Nothing here originates as an untrusted string.
    pub fn base_url(&self) -> (r: String)
        ensures
            r@ == self.url(),
    {
        let mut out = String::new();
        out.append("http://");
        match self.addr {
            Address::V6(_) => {
                out.append("[");
                push_address(&mut out, self.addr);
                out.append("]:");
            },
            Address::V4(_) => {
                push_address(&mut out, self.addr);
                out.append(":");
            },
        }
        push_decimal(&mut out, self.port as i64);
        assert(out@ =~= self.url());
        out
    }
}

/// A character that can occur in an address and a port.
pub open spec fn address_char(c: char) -> bool {
    ||| '0' <= c <= '9'
    ||| 'a' <= c <= 'f'
    ||| c == ':'
    ||| c == '.'
    ||| c == '['
    ||| c == ']'
}

/// Whether a text is made of such characters.
pub open spec fn only_address_chars(text: Seq<char>) -> bool {
    forall|i: int| 0 <= i < text.len() ==> address_char(#[trigger] text[i])
}

proof fn lemma_numeral_chars(value: int, base: int)
    requires
        value >= 0,
        base == 10 || base == 16,
    ensures
        only_address_chars(numeral(value, base, false)),
    decreases value,
{
    if value >= base {
        assert(0 <= value / base < value) by (nonlinear_arith)
            requires
                value >= base,
                base >= 2,
        ;
        lemma_numeral_chars(value / base, base);
        assert(0 <= value % base < base);
    }
}

proof fn lemma_dotted_chars(bits: int)
    requires
        0 <= bits < 0x1_0000_0000,
    ensures
        only_address_chars(dotted(bits)),
{
    reveal_strlit(".");
    lemma_numeral_chars(bits / 0x100_0000, 10);
    lemma_numeral_chars((bits / 0x1_0000) % 0x100, 10);
    lemma_numeral_chars((bits / 0x100) % 0x100, 10);
    lemma_numeral_chars(bits % 0x100, 10);
}

proof fn lemma_colons_chars(parts: Seq<int>, lo: int, hi: int)
    requires
        0 <= lo,
        hi <= parts.len(),
        forall|i: int| 0 <= i < parts.len() ==> #[trigger] parts[i] >= 0,
    ensures
        only_address_chars(colons(parts, lo, hi)),
    decreases hi - lo,
{
    reveal_strlit(":");
    if hi == lo + 1 {
        lemma_numeral_chars(parts[lo], 16);
    } else if hi > lo {
        lemma_colons_chars(parts, lo, hi - 1);
        lemma_numeral_chars(parts[hi - 1], 16);
    }
}

proof fn lemma_zeros_from(parts: Seq<int>, start: int)
    requires
        0 <= start <= parts.len(),
    ensures
        0 <= zeros_from(parts, start) <= parts.len() - start,
    decreases parts.len() - start,
{
    if start < parts.len() && parts[start] == 0 {
        lemma_zeros_from(parts, start + 1);
    }
}

proof fn lemma_longest_run(parts: Seq<int>, n: int)
    requires
        0 < n <= parts.len(),
    ensures
        0 <= longest_run(parts, n) < n,
    decreases n,
{
    reveal_with_fuel(longest_run, 2);
    if n > 1 {
        lemma_longest_run(parts, n - 1);
    }
}

/// However hostile discovery was, a base URL is a scheme, an address and a port:
/// nothing after the scheme can start a path, a query, a fragment or a userinfo
/// section.
pub proof fn law_a_url_is_only_an_address_and_a_port(endpoint: Endpoint)
    ensures
        endpoint.url() == "http://"@ + endpoint.authority(),
        only_address_chars(endpoint.authority()),
        !endpoint.authority().contains('/'),
        !endpoint.authority().contains('#'),
        !endpoint.authority().contains('?'),
        !endpoint.authority().contains('@'),
{
    reveal_strlit("[");
    reveal_strlit("]:");
    reveal_strlit(":");
    reveal_strlit("::");
    reveal_strlit("::ffff:");
    lemma_numeral_chars(endpoint.port as int, 10);
    match endpoint.addr {
        Address::V4(bits) => {
            lemma_dotted_chars(bits as int);
        },
        Address::V6(bits) => {
            let parts = groups(bits);
            assert forall|i: int| 0 <= i < parts.len() implies #[trigger] parts[i] >= 0 by {}
            lemma_longest_run(parts, 8);
            let start = longest_run(parts, 8);
            lemma_zeros_from(parts, start);
            let len = zeros_from(parts, start);
            lemma_dotted_chars(bits as int % 0x1_0000_0000);
            lemma_colons_chars(parts, 0, start);
            lemma_colons_chars(parts, start + len, 8);
            lemma_colons_chars(parts, 0, 8);
        },
    }
    assert(only_address_chars(endpoint.authority()));
}

/// An IPv4 address is written as its four bytes, the highest first.
pub proof fn law_an_ipv4_address_is_its_four_bytes(a: u8, b: u8, c: u8, d: u8, bits: u32)
    requires
        bits == a * 0x100_0000 + b * 0x1_0000 + c * 0x100 + d,
    ensures
        address_text(Address::V4(bits)) == decimal(a as int) + "."@ + decimal(b as int) + "."@
            + decimal(c as int) + "."@ + decimal(d as int),
{
    let n = bits as int;
    assert(n / 0x100_0000 == a);
    assert((n / 0x1_0000) % 0x100 == b);
    assert((n / 0x100) % 0x100 == c);
    assert(n % 0x100 == d);
}

/// The eight groups of an IPv6 address are its sixteen bytes two by two, the
/// highest first: put together again they are the address.
pub proof fn law_an_ipv6_address_is_its_eight_groups(bits: u128)
    ensures
        groups(bits).len() == 8,
        forall|i: int| 0 <= i < 8 ==> 0 <= #[trigger] groups(bits)[i] < 0x1_0000,
        bits == ((((((groups(bits)[0] * 0x1_0000 + groups(bits)[1]) * 0x1_0000 + groups(bits)[2])
            * 0x1_0000 + groups(bits)[3]) * 0x1_0000 + groups(bits)[4]) * 0x1_0000 + groups(
            bits,
        )[5]) * 0x1_0000 + groups(bits)[6]) * 0x1_0000 + groups(bits)[7],
{
    let n = bits as int;
    let a = n / 0x1_0000;
    let b = n / 0x1_0000_0000;
    let c = n / 0x1_0000_0000_0000;
    let d = n / 0x1_0000_0000_0000_0000;
    let e = n / 0x1_0000_0000_0000_0000_0000;
    let f = n / 0x1_0000_0000_0000_0000_0000_0000;
    let g = n / 0x1_0000_0000_0000_0000_0000_0000_0000;
    assert(n == a * 0x1_0000 + n % 0x1_0000);
    assert(a == b * 0x1_0000 + a % 0x1_0000);
    assert(b == c * 0x1_0000 + b % 0x1_0000);
    assert(c == d * 0x1_0000 + c % 0x1_0000);
    assert(d == e * 0x1_0000 + d % 0x1_0000);
    assert(e == f * 0x1_0000 + e % 0x1_0000);
    assert(f == g * 0x1_0000 + f % 0x1_0000);
    assert(0 <= g < 0x1_0000);
}

/// The zeros that are left out of an IPv6 address are the longest run of them, the
/// first where several are as long.
pub proof fn law_the_longest_run_of_zeros_is_left_out(parts: Seq<int>, n: int, i: int)
    requires
        0 <= i < n,
    ensures
        0 <= longest_run(parts, n) < n,
        zeros_from(parts, i) <= zeros_from(parts, longest_run(parts, n)),
        i < longest_run(parts, n) ==> zeros_from(parts, i) < zeros_from(
            parts,
            longest_run(parts, n),
        ),
    decreases n,
{
    if n == 1 {
        assert(longest_run(parts, 0) == 0);
    } else if i < n - 1 {
        law_the_longest_run_of_zeros_is_left_out(parts, n - 1, i);
    } else {
        law_the_longest_run_of_zeros_is_left_out(parts, n - 1, 0);
    }
}

/// A run of zeros is as long as there are zeros from where it starts.
pub proof fn law_a_run_of_zeros_ends_at_the_first_other(parts: Seq<int>, start: int, i: int)
    requires
        0 <= start <= parts.len(),
    ensures
        0 <= zeros_from(parts, start) <= parts.len() - start,
        start <= i < start + zeros_from(parts, start) ==> parts[i] == 0,
        start + zeros_from(parts, start) < parts.len() ==> parts[start + zeros_from(parts, start)]
            != 0,
    decreases parts.len() - start,
{
    if start < parts.len() && parts[start] == 0 {
        law_a_run_of_zeros_ends_at_the_first_other(parts, start + 1, i);
    }
}

/// Groups are written in hexadecimal with a colon between each two.
pub proof fn law_groups_are_written_between_colons(parts: Seq<int>, lo: int, hi: int)
    ensures
        colons(parts, lo, lo).len() == 0,
        colons(parts, lo, lo + 1) == numeral(parts[lo], 16, false),
        lo < hi ==> colons(parts, lo, hi + 1) == colons(parts, lo, hi) + ":"@ + numeral(
            parts[hi],
            16,
            false,
        ),
{
}

/// An IPv6 address that stands for an IPv4 address is written as one, any other as
/// its groups, with the longest run of two or more zeros left out.
pub proof fn law_an_ipv6_address_leaves_out_its_zeros(bits: u128)
    ensures
        ({
            let parts = groups(bits);
            let start = longest_run(parts, 8);
            let end = start + zeros_from(parts, start);
            &&& bits as int / 0x1_0000_0000 == 0xffff ==> address_text(Address::V6(bits))
                == "::ffff:"@ + address_text(Address::V4((bits as int % 0x1_0000_0000) as u32))
            &&& bits as int / 0x1_0000_0000 != 0xffff && end - start >= 2 ==> address_text(
                Address::V6(bits),
            ) == colons(parts, 0, start) + "::"@ + colons(parts, end, 8)
            &&& bits as int / 0x1_0000_0000 != 0xffff && end - start < 2 ==> address_text(
                Address::V6(bits),
            ) == colons(parts, 0, 8)
        }),
{
}

/// A light is spoken to at its address and port, an IPv6 address in brackets.
pub proof fn law_a_url_is_the_address_and_the_port(endpoint: Endpoint)
    ensures
        endpoint.addr is V4 ==> endpoint.url() == "http://"@ + address_text(endpoint.addr) + ":"@
            + decimal(endpoint.port as int),
        endpoint.addr is V6 ==> endpoint.url() == "http://["@ + address_text(endpoint.addr) + "]:"@
            + decimal(endpoint.port as int),
{
    reveal_strlit("http://");
    reveal_strlit("http://[");
    reveal_strlit("[");
    let text = address_text(endpoint.addr);
    let port = decimal(endpoint.port as int);
    if endpoint.addr is V4 {
        assert(endpoint.url() =~= "http://"@ + text + ":"@ + port);
    } else {
        assert("http://["@ =~= "http://"@ + "["@);
        assert(endpoint.url() =~= "http://["@ + text + "]:"@ + port);
    }
}

} // verus!
