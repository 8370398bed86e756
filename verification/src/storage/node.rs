//! Identifiers and timestamps of the property graph.

use vstd::prelude::*;

use crate::text::{after_last, behind_last, copy_str, from_chars, lemma_after_last, to_chars};

verus! {

/// A point in time, in milliseconds since the Unix epoch (UTC).
#[derive(Debug, Clone, Copy, PartialEq, Eq, PartialOrd, Ord, Structural)]
pub struct Timestamp {
    /// Milliseconds since the Unix epoch.
    pub millis: i64,
}

impl Timestamp {
    /// The current time, from `chrono::Utc::now().timestamp_millis()`. Nothing is claimed
    /// of a clock reading.
    #[verifier::external_body]
    pub fn now() -> Self {
        Timestamp { millis: chrono::Utc::now().timestamp_millis() }
    }

    /// The text of a point in time: date and time of day in UTC. Where there is no such date
    /// it is that of the epoch.
    pub open spec fn text(&self) -> Seq<char> {
        match civil_text(self.millis, "%Y-%m-%d %H:%M:%S"@) {
            Some(t) => t,
            None => "1970-01-01 00:00:00"@,
        }
    }

    /// The date and the time of day in UTC.
    pub fn to_string(&self) -> (r: String)
        ensures
            r@ == self.text(),
    {
        match format_time(self.millis, "%Y-%m-%d %H:%M:%S") {
            Some(t) => t,
            None => copy_str("1970-01-01 00:00:00"),
        }
    }
}

/// What `chrono::DateTime::format` writes of a point in time in UTC, given in milliseconds
/// since the Unix epoch, by a pattern. There is nothing where chrono has no such date.
pub uninterp spec fn civil_text(millis: i64, pattern: Seq<char>) -> Option<Seq<char>>;

/// Calls `chrono::DateTime::from_timestamp_millis`, and `format` with the pattern on what it
/// gives. The contract says that the outcome depends on the two arguments alone.
#[verifier::external_body]
fn format_time(millis: i64, pattern: &str) -> (r: Option<String>)
    requires
        pattern@ == "%Y-%m-%d %H:%M:%S"@,
    ensures
        (match r {
            Some(t) => Some(t@),
            None => None,
        }) == civil_text(millis, pattern@),
{
    match chrono::DateTime::from_timestamp_millis(millis) {
        Some(t) => Some(t.format(pattern).to_string()),
        None => None,
    }
}

/// The lower-case hexadecimal digit of a number below 16.
pub open spec fn hex_char(d: int) -> char {
    if d < 10 {
        (('0' as u32) + d) as char
    } else {
        (('a' as u32) + (d - 10)) as char
    }
}

/// Number of hyphens before position `i` of a hyphenated UUID.
pub open spec fn hyphens_before(i: int) -> int {
    (if i > 8 {
        1int
    } else {
        0
    }) + (if i > 13 {
        1int
    } else {
        0
    }) + (if i > 18 {
        1int
    } else {
        0
    }) + (if i > 23 {
        1int
    } else {
        0
    })
}

/// The hyphenated text of a UUID: groups of 8, 4, 4, 4 and 12 hexadecimal digits.
pub open spec fn uuid_text(bytes: Seq<u8>) -> Seq<char> {
    Seq::new(
        36,
        |i: int|
            if i == 8 || i == 13 || i == 18 || i == 23 {
                '-'
            } else {
                let n = i - hyphens_before(i);
                let byte = bytes[n / 2] as int;
                hex_char(if n % 2 == 0 {
                    byte / 16
                } else {
                    byte % 16
                })
            },
    )
}

/// The bytes that `uuid::Uuid::parse_str` reads from a text, or `None` where it fails.
pub uninterp spec fn uuid_parse(s: Seq<char>) -> Option<Seq<u8>>;

/// Calls `uuid::Uuid::parse_str`. Its outcome is a function of the text, named
/// [`uuid_parse`]; the kinds of failure are not told apart.
#[verifier::external_body]
fn parse_uuid(s: &str) -> (r: Option<[u8; 16]>)
    ensures
        match r {
            Some(b) => uuid_parse(s@) == Some(b@),
            None => uuid_parse(s@) is None,
        },
{
    uuid::Uuid::parse_str(s).ok().map(|u| *u.as_bytes())
}

/// Formats UUID bytes with the `Display` of `uuid::Uuid`: the hyphenated lower-case form,
/// which the parser of the same crate reads back.
#[verifier::external_body]
fn format_uuid(bytes: &[u8; 16]) -> (r: String)
    ensures
        r@ == uuid_text(bytes@),
        uuid_parse(r@) == Some(bytes@),
{
    uuid::Uuid::from_bytes(*bytes).to_string()
}

/// Whether bytes are those of a random UUID: of version 4, in the variant that RFC 4122 has.
pub open spec fn is_random_uuid(bytes: Seq<u8>) -> bool {
    bytes[6] / 16 == 4 && bytes[8] / 64 == 2
}

/// The bytes of `uuid::Uuid::new_v4`, which sets the version and the variant. Nothing is
/// claimed of the other bits, which are random.
#[verifier::external_body]
fn random_uuid() -> (r: [u8; 16])
    ensures
        is_random_uuid(r@),
{
    *uuid::Uuid::new_v4().as_bytes()
}

/// An identifier that could not be parsed, with the kind of identifier that was wanted.
#[derive(Debug)]
pub enum InvalidId {
    /// Not a node identifier.
    Node(String),
    /// Not an edge identifier.
    Edge(String),
}

impl InvalidId {
    /// The message of the error.
    pub open spec fn text(&self) -> Seq<char> {
        match *self {
            InvalidId::Node(s) => "Invalid node ID: "@ + s@,
            InvalidId::Edge(s) => "Invalid edge ID: "@ + s@,
        }
    }

    /// The message of the error.
    pub fn message(&self) -> (r: String)
        ensures
            r@ == self.text(),
    {
        match self {
            InvalidId::Node(s) => {
                let mut m = copy_str("Invalid node ID: ");
                crate::text::push_str(&mut m, s.as_str());
                m
            },
            InvalidId::Edge(s) => {
                let mut m = copy_str("Invalid edge ID: ");
                crate::text::push_str(&mut m, s.as_str());
                m
            },
        }
    }
}

/// The part of a node identifier that holds the UUID: behind the last colon, or, where
/// there is no colon, behind the last slash.
pub open spec fn uuid_part(s: Seq<char>) -> Seq<char> {
    if s.contains(':') {
        after_last(s, ':')
    } else {
        after_last(s, '/')
    }
}

/// Unique identifier of a node.
#[derive(Debug, Clone, Copy, PartialEq, Eq, Hash)]
pub struct NodeId {
    /// The UUID bytes, most significant first.
    pub uuid: [u8; 16],
}

impl View for NodeId {
    type V = Seq<u8>;

    open spec fn view(&self) -> Seq<u8> {
        self.uuid@
    }
}

impl NodeId {
    /// Creates a random identifier.
    pub fn new() -> (r: Self)
        ensures
            is_random_uuid(r@),
    {
        NodeId { uuid: random_uuid() }
    }

    /// Reads an identifier: a UUID, alone or behind a type and a colon or slash.
    pub fn parse(s: &str) -> (r: Result<NodeId, InvalidId>)
        ensures
            match r {
                Ok(id) => uuid_parse(uuid_part(s@)) == Some(id@),
                Err(e) => uuid_parse(uuid_part(s@)) is None && (e matches InvalidId::Node(t)
                    && t@ == s@),
            },
    {
        let chars = to_chars(s);
        let colon: usize = behind_last(chars.as_slice(), ':');
        let start: usize = if colon > 0 {
            colon
        } else {
            behind_last(chars.as_slice(), '/')
        };
        let part = from_chars(chars.as_slice(), start, chars.len());
        assert(part@ =~= uuid_part(s@));
        match parse_uuid(part.as_str()) {
            Some(uuid) => Ok(NodeId { uuid }),
            None => Err(InvalidId::Node(copy_str(s))),
        }
    }

    /// The hyphenated text of the identifier. Parsing it gives the identifier back.
    pub fn to_string(&self) -> (r: String)
        ensures
            r@ == uuid_text(self@),
            uuid_parse(r@) == Some(self@),
    {
        format_uuid(&self.uuid)
    }

    /// Whether two identifiers are the same.
    pub fn same(&self, other: &NodeId) -> (r: bool)
        ensures
            r == (self@ == other@),
    {
        same_bytes(&self.uuid, &other.uuid)
    }
}

impl Default for NodeId {
    fn default() -> (r: Self)
        ensures
            is_random_uuid(r@),
    {
        NodeId::new()
    }
}

/// Unique identifier of an edge.
#[derive(Debug, Clone, Copy, PartialEq, Eq, Hash)]
pub struct EdgeId {
    /// The UUID bytes, most significant first.
    pub uuid: [u8; 16],
}

impl View for EdgeId {
    type V = Seq<u8>;

    open spec fn view(&self) -> Seq<u8> {
        self.uuid@
    }
}

impl EdgeId {
    /// Creates a random identifier.
    pub fn new() -> (r: Self)
        ensures
            is_random_uuid(r@),
    {
        EdgeId { uuid: random_uuid() }
    }

    /// Reads an identifier: a UUID and nothing else.
    pub fn parse(s: &str) -> (r: Result<EdgeId, InvalidId>)
        ensures
            match r {
                Ok(id) => uuid_parse(s@) == Some(id@),
                Err(e) => uuid_parse(s@) is None && (e matches InvalidId::Edge(t) && t@ == s@),
            },
    {
        match parse_uuid(s) {
            Some(uuid) => Ok(EdgeId { uuid }),
            None => Err(InvalidId::Edge(copy_str(s))),
        }
    }

    /// The hyphenated text of the identifier. Parsing it gives the identifier back.
    pub fn to_string(&self) -> (r: String)
        ensures
            r@ == uuid_text(self@),
            uuid_parse(r@) == Some(self@),
    {
        format_uuid(&self.uuid)
    }

    /// Whether two identifiers are the same.
    pub fn same(&self, other: &EdgeId) -> (r: bool)
        ensures
            r == (self@ == other@),
    {
        same_bytes(&self.uuid, &other.uuid)
    }
}

impl Default for EdgeId {
    fn default() -> (r: Self)
        ensures
            is_random_uuid(r@),
    {
        EdgeId::new()
    }
}

fn same_bytes(a: &[u8; 16], b: &[u8; 16]) -> (r: bool)
    ensures
        r == (a@ == b@),
{
    let mut i: usize = 0;
    while i < 16
        invariant
            i <= 16,
            forall|j: int| 0 <= j < i ==> a@[j] == b@[j],
        decreases 16 - i,
    {
        if a[i] != b[i] {
            assert(a@[i as int] != b@[i as int]);
            return false;
        }
        i = i + 1;
    }
    assert(a@ =~= b@);
    true
}

/// A node identifier reads back from its text, alone or behind a type and a colon or a
/// slash; a type in front of a slash holds no colon.
pub proof fn law_node_id_round_trip(id: Seq<u8>, text: Seq<char>, kind: Seq<char>, sep: char)
    requires
        text == uuid_text(id),
        uuid_parse(text) == Some(id),
        sep == ':' || (sep == '/' && !kind.contains(':')),
    ensures
        uuid_parse(uuid_part(text)) == Some(id),
        uuid_parse(uuid_part(kind.push(sep) + text)) == Some(id),
{
    assert forall|i: int| 0 <= i < text.len() implies text[i] != ':' && text[i] != '/' by {
        if !(i == 8 || i == 13 || i == 18 || i == 23) {
            let n = i - hyphens_before(i);
            let byte = id[n / 2] as int;
            let d = if n % 2 == 0 {
                byte / 16
            } else {
                byte % 16
            };
            assert(0 <= d < 16);
            assert(text[i] == hex_char(d));
        }
    }
    lemma_after_last(text, 0, ':');
    lemma_after_last(text, 0, '/');
    assert(text.skip(0) =~= text);
    let s = kind.push(sep) + text;
    let k = kind.len() as int;
    assert(s[k] == sep);
    assert forall|j: int| k + 1 <= j < s.len() implies s[j] != sep by {
        assert(s[j] == text[j - k - 1]);
    }
    lemma_after_last(s, k + 1, sep);
    assert(s.skip(k + 1) =~= text);
    if sep == '/' {
        assert(!s.contains(':')) by {
            if s.contains(':') {
                let j = choose|j: int| 0 <= j < s.len() && s[j] == ':';
                if j < k {
                    assert(kind[j] == ':');
                } else if j > k {
                    assert(s[j] == text[j - k - 1]);
                }
            }
        }
    }
}

/// Number that a hexadecimal digit stands for.
pub open spec fn hex_value(c: char) -> int {
    if '0' <= c && c <= '9' {
        c as int - '0' as int
    } else if 'a' <= c && c <= 'f' {
        c as int - 'a' as int + 10
    } else {
        -1
    }
}

/// Where the two digits of byte `k` of a UUID begin: behind those of the bytes before it, and
/// behind the hyphens, which stand behind the fourth, sixth, eighth and tenth byte.
pub open spec fn digits_at(k: int) -> int {
    if k < 4 {
        2 * k
    } else if k < 6 {
        2 * k + 1
    } else if k < 8 {
        2 * k + 2
    } else if k < 10 {
        2 * k + 3
    } else {
        2 * k + 4
    }
}

/// The text of a UUID holds two digits for each byte, the higher first, and four hyphens.
pub proof fn law_uuid_text(bytes: Seq<u8>, k: int)
    requires
        0 <= k < 16,
    ensures
        uuid_text(bytes).len() == 36,
        16 * hex_value(uuid_text(bytes)[digits_at(k)]) + hex_value(
            uuid_text(bytes)[digits_at(k) + 1],
        ) == bytes[k],
        uuid_text(bytes)[8] == '-',
        uuid_text(bytes)[13] == '-',
        uuid_text(bytes)[18] == '-',
        uuid_text(bytes)[23] == '-',
{
    let p = digits_at(k);
    let byte = bytes[k] as int;
    assert(p - hyphens_before(p) == 2 * k);
    assert(p + 1 - hyphens_before(p + 1) == 2 * k + 1);
    assert(uuid_text(bytes)[p] == hex_char(byte / 16));
    assert(uuid_text(bytes)[p + 1] == hex_char(byte % 16));
    lemma_hex_char(byte / 16);
    lemma_hex_char(byte % 16);
}

/// A digit stands for the number that it was made of.
proof fn lemma_hex_char(d: int)
    requires
        0 <= d < 16,
    ensures
        hex_value(hex_char(d)) == d,
{
}

} // verus!
