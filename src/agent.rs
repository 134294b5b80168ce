//! What the referee exchanges with the remote agents, and their addresses.
use vstd::prelude::*;
use crate::world::{Coordinate, Spaces};

verus! {

/// What an agent is sent at the start of each turn.
#[derive(Clone, Copy, Debug)]
pub struct TurnRequest {
    pub turn: usize,
    pub player: usize,
    pub spaces: Spaces,
}

/// An agent's proposal: move everything on `from` to `to`.
#[derive(Clone, Copy, Debug, PartialEq, Eq, Structural)]
pub struct TurnResponse {
    pub from: Coordinate,
    pub to: Coordinate,
}

/// Where a remote agent listens.
#[derive(Debug)]
pub struct Ai {
    host: String,
    port: u16,
}

pub open spec fn is_digit(c: char) -> bool {
    '0' <= c && c <= '9'
}

/// The number that a string of decimal digits spells.
pub open spec fn digits_value(s: Seq<char>) -> nat
    decreases s.len(),
{
    if s.len() == 0 {
        0
    } else {
        digits_value(s.drop_last()) * 10 + ((s.last() as u32) - ('0' as u32)) as nat
    }
}

/// The text without one leading `+`.
pub open spec fn unsigned_part(s: Seq<char>) -> Seq<char> {
    if s.len() > 0 && s[0] == '+' {
        s.skip(1)
    } else {
        s
    }
}

/// The port number a text spells, as the standard library's parsing of a
/// `u16` reads it: an optional `+`, then at least one decimal digit.
pub open spec fn port_text(s: Seq<char>) -> Option<u16> {
    let d = unsigned_part(s);
    if d.len() > 0 && (forall|i: int| 0 <= i < d.len() ==> is_digit(#[trigger] d[i])) && digits_value(d)
        <= u16::MAX {
        Some(digits_value(d) as u16)
    } else {
        None
    }
}

pub open spec fn localhost_prefix() -> Seq<char> {
    seq!['l', 'o', 'c', 'a', 'l', 'h', 'o', 's', 't', ':']
}

/// An argument that is a bare port stands for that port on `localhost`.
pub open spec fn full_address(arg: Seq<char>) -> Seq<char> {
    if port_text(arg) is Some {
        localhost_prefix() + arg
    } else {
        arg
    }
}

/// `i` is the position of the only colon in `a`.
pub open spec fn sole_colon(a: Seq<char>, i: int) -> bool {
    &&& 0 <= i < a.len()
    &&& a[i] == ':'
    &&& forall|j: int| 0 <= j < a.len() && j != i ==> #[trigger] a[j] != ':'
}

/// Host and port of `host:port`, with exactly one colon and a valid port.
pub open spec fn split_address(a: Seq<char>) -> Option<(Seq<char>, u16)> {
    if exists|i: int| sole_colon(a, i) {
        let i = choose|i: int| sole_colon(a, i);
        match port_text(a.skip(i + 1)) {
            Some(p) => Some((a.take(i), p)),
            None => None,
        }
    } else {
        None
    }
}

/// The message for an address that cannot be read.
pub open spec fn malformed_text(a: Seq<char>) -> Seq<char> {
    "Argument '"@ + a + "' is not properly formatted. Expected 'hostname:port' or 'port'."@
}

/// The characters of `s` in order.
fn chars_of(s: &str) -> (r: Vec<char>)
    ensures
        r@ == s@,
{
    let mut out: Vec<char> = Vec::new();
    for ch in it: s.chars()
        invariant
            out@ == it.seq().take(it.index() as int),
            it.seq() == s@,
    {
        out.push(ch);
    }
    out
}

/// Relies on `collect` into a `String`: the string of these characters.
#[verifier::external_body]
pub(crate) fn string_of(cs: &Vec<char>) -> (r: String)
    ensures
        r@ == cs@,
{
    cs.iter().collect()
}

/// Relies on `format!`: the message for an address that cannot be read,
/// which quotes it.
#[verifier::external_body]
fn malformed(address: &str) -> (r: String)
    ensures
        r@ == malformed_text(address@),
{
    format!("Argument '{}' is not properly formatted. Expected 'hostname:port' or 'port'.", address)
}

proof fn lemma_digits_value_grows(s: Seq<char>, k: int)
    requires
        0 <= k <= s.len(),
        forall|i: int| 0 <= i < s.len() ==> is_digit(#[trigger] s[i]),
    ensures
        digits_value(s.take(k)) <= digits_value(s),
    decreases s.len(),
{
    if k < s.len() {
        assert(s.drop_last().take(k) == s.take(k));
        assert forall|i: int| 0 <= i < s.drop_last().len() implies is_digit(#[trigger] s.drop_last()[i]) by {
            assert(s.drop_last()[i] == s[i]);
        }
        lemma_digits_value_grows(s.drop_last(), k);
    } else {
        assert(s.take(k) == s);
    }
}

/// The port spelled by `cs` from position `start` on.
fn parse_port(cs: &Vec<char>, start: usize) -> (r: Option<u16>)
    requires
        start <= cs.len(),
    ensures
        r == port_text(cs@.skip(start as int)),
{
    let ghost s = cs@.skip(start as int);
    let mut i = start;
    if i < cs.len() && cs[i] == '+' {
        i += 1;
    }
    let ghost d = cs@.skip(i as int);
    assert(unsigned_part(s) == d);
    if i == cs.len() {
        return None;
    }
    let mut value: u32 = 0;
    let mut j = i;
    while j < cs.len()
        invariant
            i <= j <= cs.len(),
            d == cs@.skip(i as int),
            s == cs@.skip(start as int),
            unsigned_part(s) == d,
            value <= u16::MAX,
            value == digits_value(d.take(j - i)),
            forall|k: int| 0 <= k < j - i ==> is_digit(#[trigger] d[k]),
        decreases cs.len() - j,
    {
        let ch = cs[j];
        assert(d[j - i] == ch);
        if !('0' <= ch && ch <= '9') {
            assert(!is_digit(d[j - i]));
            return None;
        }
        assert(d.take(j - i + 1).drop_last() == d.take(j - i));
        let next = value * 10 + (ch as u32 - '0' as u32);
        assert(d.take(j - i + 1).last() == ch);
        assert(next == digits_value(d.take(j - i + 1)));
        if next > 65535 {
            proof {
                if forall|k: int| 0 <= k < d.len() ==> is_digit(#[trigger] d[k]) {
                    lemma_digits_value_grows(d, j - i + 1);
                }
            }
            return None;
        }
        value = next;
        j += 1;
    }
    assert(d.take(j - i) == d);
    Some(value as u16)
}

/// The address an argument stands for: a bare port gets the host `localhost`.
fn with_default_host(given: &Vec<char>) -> (r: Vec<char>)
    ensures
        r@ == full_address(given@),
{
    let mut address: Vec<char> = Vec::new();
    let bare_port = parse_port(given, 0).is_some();
    assert(given@.skip(0) == given@);
    if bare_port {
        address = vec!['l', 'o', 'c', 'a', 'l', 'h', 'o', 's', 't', ':'];
        assert(address@ == localhost_prefix());
    }
    let ghost start = address@;
    let mut k: usize = 0;
    while k < given.len()
        invariant
            k <= given.len(),
            address@ == start + given@.take(k as int),
            start.len() <= 10,
        decreases given.len() - k,
    {
        address.push(given[k]);
        assert(given@.take(k as int + 1) == given@.take(k as int).push(given@[k as int]));
        k += 1;
    }
    assert(given@.take(given.len() as int) == given@);
    address
}

/// The position of the only colon of `a`, if it has exactly one.
fn sole_colon_position(a: &Vec<char>) -> (r: Option<usize>)
    ensures
        r matches Some(i) ==> sole_colon(a@, i as int),
        r is None ==> forall|i: int| !sole_colon(a@, i),
{
    let mut colons: usize = 0;
    let mut first: usize = 0;
    let mut k: usize = 0;
    while k < a.len()
        invariant
            k <= a.len(),
            colons <= k,
            colons == 0 ==> forall|j: int| 0 <= j < k ==> #[trigger] a@[j] != ':',
            colons >= 1 ==> first < k && a@[first as int] == ':',
            colons == 1 ==> forall|j: int| 0 <= j < k && j != first ==> #[trigger] a@[j] != ':',
            colons >= 2 ==> exists|j: int| 0 <= j < k && j != first && #[trigger] a@[j] == ':',
        decreases a.len() - k,
    {
        if a[k] == ':' {
            if colons == 0 {
                first = k;
            }
            colons += 1;
        }
        k += 1;
    }
    if colons != 1 {
        proof {
            assert forall|i: int| !sole_colon(a@, i) by {
                if sole_colon(a@, i) && colons >= 2 {
                    let j = choose|j: int| 0 <= j < k && j != first && #[trigger] a@[j] == ':';
                    assert(a@[j] == ':');
                    assert(a@[first as int] == ':');
                }
            }
        }
        return None;
    }
    Some(first)
}

/// The first `n` characters of `a`.
fn prefix(a: &Vec<char>, n: usize) -> (r: Vec<char>)
    requires
        n <= a.len(),
    ensures
        r@ == a@.take(n as int),
{
    let mut out: Vec<char> = Vec::new();
    let mut k: usize = 0;
    while k < n
        invariant
            k <= n <= a.len(),
            out@ == a@.take(k as int),
        decreases n - k,
    {
        out.push(a[k]);
        assert(a@.take(k as int + 1) == a@.take(k as int).push(a@[k as int]));
        k += 1;
    }
    out
}

impl Ai {
    /// Reads an agent's address from a command-line argument: `port`, which
    /// means `localhost:port`, or `host:port`.
    pub fn from_arg(arg: &str) -> (r: Result<Ai, String>)
        ensures
            match r {
                Ok(ai) => split_address(full_address(arg@)) == Some((ai.spec_host(), ai.spec_port())),
                Err(e) => split_address(full_address(arg@)) is None && e@ == malformed_text(full_address(arg@)),
            },
    {
        let given = chars_of(arg);
        let address = with_default_host(&given);
        let ghost a = address@;
        match sole_colon_position(&address) {
            None => {
                let text = string_of(&address);
                Err(malformed(text.as_str()))
            },
            Some(first) => {
                proof {
                    let i = choose|i: int| sole_colon(a, i);
                    assert(i == first);
                }
                match parse_port(&address, first + 1) {
                    None => {
                        let text = string_of(&address);
                        Err(malformed(text.as_str()))
                    },
                    Some(port) => {
                        let host = string_of(&prefix(&address, first));
                        Ok(Ai { host, port })
                    },
                }
            },
        }
    }

    pub closed spec fn spec_port(&self) -> u16 {
        self.port
    }

    pub closed spec fn spec_host(&self) -> Seq<char> {
        self.host@
    }

    /// The agent's host name.
    pub fn host(&self) -> (r: &str)
        ensures
            r@ == self.spec_host(),
    {
        self.host.as_str()
    }

    /// The agent's port.
    pub fn port(&self) -> (r: u16)
        ensures
            r == self.spec_port(),
    {
        self.port
    }
}

} // verus!
