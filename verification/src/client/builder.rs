//! Configuration of a client.

use vstd::prelude::*;

use crate::text::{
    after_last, behind_last, copy_str, decimal, digit_char, digits_value, from_chars, is_digit,
    lemma_after_last, parse_number, push_decimal, push_str, to_chars, unsigned_number,
    without_plus,
};

verus! {

/// Configuration of a client.
#[derive(Debug)]
pub struct ClientBuilder {
    /// Host of the server.
    pub host: String,
    /// Port of the server.
    pub port: u16,
    /// Whether messages are compressed.
    pub compression: bool,
    /// How long connecting may take, in seconds.
    pub timeout_secs: u64,
}

/// What precedes the last `c` in a text that holds one.
pub open spec fn before_last(s: Seq<char>, c: char) -> Seq<char> {
    s.take(s.len() - after_last(s, c).len() - 1)
}

/// The host of an address: what precedes the last colon, or all of it.
pub open spec fn host_of(address: Seq<char>) -> Seq<char> {
    if address.contains(':') {
        before_last(address, ':')
    } else {
        address
    }
}

/// The port of an address: what follows the last colon, where it is a port.
pub open spec fn port_of(address: Seq<char>) -> Option<nat> {
    if address.contains(':') {
        match unsigned_number(after_last(address, ':')) {
            Some(n) => if n <= u16::MAX {
                Some(n)
            } else {
                None
            },
            None => None,
        }
    } else {
        None
    }
}

/// The address with a host and a port.
pub open spec fn address_of(host: Seq<char>, port: nat) -> Seq<char> {
    host + ":"@ + decimal(port)
}

impl Default for ClientBuilder {
    fn default() -> (r: Self)
        ensures
            r.host@ == "127.0.0.1"@,
            r.port == 7432,
            r.compression,
            r.timeout_secs == 10,
    {
        ClientBuilder::new()
    }
}

impl ClientBuilder {
    /// A configuration for a server on this machine.
    pub fn new() -> (r: Self)
        ensures
            r.host@ == "127.0.0.1"@,
            r.port == 7432,
            r.compression,
            r.timeout_secs == 10,
    {
        ClientBuilder {
            host: copy_str("127.0.0.1"),
            port: 7432,
            compression: true,
            timeout_secs: 10,
        }
    }

    /// Sets the host.
    pub fn host(self, host: &str) -> (r: Self)
        ensures
            r.host@ == host@,
            r.port == self.port,
            r.compression == self.compression,
            r.timeout_secs == self.timeout_secs,
    {
        ClientBuilder { host: copy_str(host), ..self }
    }

    /// Sets the port.
    pub fn port(self, port: u16) -> (r: Self)
        ensures
            r == (ClientBuilder { port, ..self }),
    {
        ClientBuilder { port, ..self }
    }

    /// Sets the host, and the port where the address names one.
    pub fn address(self, addr: &str) -> (r: Self)
        ensures
            r.host@ == host_of(addr@),
            r.port == (match port_of(addr@) {
                Some(n) => n as int,
                None => self.port as int,
            }),
            r.compression == self.compression,
            r.timeout_secs == self.timeout_secs,
    {
        let chars = to_chars(addr);
        let start: usize = behind_last(chars.as_slice(), ':');
        if start == 0 {
            return ClientBuilder { host: copy_str(addr), ..self };
        }
        let host = from_chars(chars.as_slice(), 0, start - 1);
        let rest = from_chars(chars.as_slice(), start, chars.len());
        assert(rest@ =~= after_last(addr@, ':'));
        assert(host@ =~= before_last(addr@, ':'));
        match parse_number(rest.as_str(), 65535) {
            Some(p) => ClientBuilder { host, port: p as u16, ..self },
            None => ClientBuilder { host, ..self },
        }
    }

    /// Sets whether messages are compressed.
    pub fn compression(self, enabled: bool) -> (r: Self)
        ensures
            r == (ClientBuilder { compression: enabled, ..self }),
    {
        ClientBuilder { compression: enabled, ..self }
    }

    /// Sets how long connecting may take, in seconds.
    pub fn timeout(self, secs: u64) -> (r: Self)
        ensures
            r == (ClientBuilder { timeout_secs: secs, ..self }),
    {
        ClientBuilder { timeout_secs: secs, ..self }
    }

    /// The address of the server.
    pub fn get_address(&self) -> (r: String)
        ensures
            r@ == address_of(self.host@, self.port as nat),
    {
        let mut r = copy_str(self.host.as_str());
        push_str(&mut r, ":");
        push_decimal(&mut r, self.port as u64);
        r
    }
}

/// The decimal digits of a number have its value.
proof fn lemma_decimal_value(n: nat)
    ensures
        decimal(n).len() > 0,
        forall|i: int| 0 <= i < decimal(n).len() ==> is_digit(#[trigger] decimal(n)[i]),
        digits_value(decimal(n)) == n,
    decreases n,
{
    reveal_with_fuel(digits_value, 2);
    let d = decimal(n);
    if n < 10 {
        assert(d.drop_last() =~= Seq::<char>::empty());
    } else {
        lemma_decimal_value(n / 10);
        assert(d.drop_last() =~= decimal(n / 10));
        assert(d.last() == digit_char(n % 10));
    }
}

/// The address that a configuration gives names its host and its port.
pub proof fn law_address_reads_back(host: Seq<char>, port: u16)
    ensures
        host_of(address_of(host, port as nat)) == host,
        port_of(address_of(host, port as nat)) == Some(port as nat),
{
    reveal_strlit(":");
    let d = decimal(port as nat);
    let a = address_of(host, port as nat);
    lemma_decimal_value(port as nat);
    assert(":"@ =~= seq![':']);
    assert(a[host.len() as int] == ':');
    assert forall|j: int| host.len() + 1 <= j < a.len() implies a[j] != ':' by {
        assert(a[j] == d[j - host.len() - 1]);
        assert(is_digit(d[j - host.len() - 1]));
    }
    lemma_after_last(a, host.len() as int + 1, ':');
    assert(a.skip(host.len() as int + 1) =~= d);
    assert(before_last(a, ':') =~= host);
    assert(is_digit(d[0]));
    assert(without_plus(d) == d);
}

} // verus!
