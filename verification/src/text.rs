//! Strings as sequences of characters.

use vstd::prelude::*;
use vstd::string::*;
use vstd::utf8::{
    char_u32_cast, decode_first_scalar, encode_scalar, encode_utf8, encode_utf8_decode_utf8,
    encode_utf8_first_scalar, length_of_first_scalar,
};

verus! {

/// `String::push` appends one character.
pub assume_specification[ std::string::String::push ](s: &mut std::string::String, c: char)
    ensures
        final(s)@ == old(s)@.push(c),
;

/// The characters of `s`.
pub fn to_chars(s: &str) -> (v: Vec<char>)
    ensures
        v@ == s@,
{
    let mut v: Vec<char> = Vec::new();
    for c in it: s.chars()
        invariant
            v@ == it.seq().take(it.index() as int),
            it.seq() == s@,
    {
        v.push(c);
        assert(v@ =~= it.seq().take(it.index() + 1));
    }
    assert(v@ =~= s@);
    v
}

/// The string of the characters `v[from..to]`.
pub fn from_chars(v: &[char], from: usize, to: usize) -> (s: String)
    requires
        from <= to <= v@.len(),
    ensures
        s@ == v@.subrange(from as int, to as int),
{
    let mut s = String::new();
    let mut i: usize = from;
    while i < to
        invariant
            from <= i <= to <= v@.len(),
            s@ == v@.subrange(from as int, i as int),
        decreases to - i,
    {
        s.push(v[i]);
        i = i + 1;
        assert(s@ =~= v@.subrange(from as int, i as int));
    }
    s
}

/// A copy of `s`.
pub fn copy_str(s: &str) -> (r: String)
    ensures
        r@ == s@,
{
    s.to_owned()
}

/// Appends `more` to `s`.
pub fn push_str(s: &mut String, more: &str)
    ensures
        final(s)@ == old(s)@ + more@,
{
    s.append(more);
}

/// Whether two strings have the same characters.
pub fn same_text(a: &str, b: &str) -> (r: bool)
    ensures
        r == (a@ == b@),
{
    let x = to_chars(a);
    let y = to_chars(b);
    same_chars(&x, &y)
}

/// Whether two character sequences are equal.
pub fn same_chars(x: &[char], y: &[char]) -> (r: bool)
    ensures
        r == (x@ == y@),
{
    if x.len() != y.len() {
        return false;
    }
    let mut i: usize = 0;
    while i < x.len()
        invariant
            i <= x@.len(),
            x@.len() == y@.len(),
            x@.take(i as int) == y@.take(i as int),
        decreases x.len() - i,
    {
        if x[i] != y[i] {
            assert(x@[i as int] != y@[i as int]);
            return false;
        }
        i = i + 1;
        assert(x@.take(i as int) =~= x@.take(i - 1).push(x@[i - 1]));
        assert(y@.take(i as int) =~= y@.take(i - 1).push(y@[i - 1]));
    }
    assert(x@.take(i as int) =~= x@);
    assert(y@.take(i as int) =~= y@);
    true
}

/// What follows the last `c` in `s`: the longest suffix without `c`.
pub open spec fn after_last(s: Seq<char>, c: char) -> Seq<char>
    decreases s.len(),
{
    if s.len() == 0 || s.last() == c {
        Seq::empty()
    } else {
        after_last(s.drop_last(), c).push(s.last())
    }
}

/// A position behind which no `c` occurs, and which starts the string or follows a `c`,
/// is where the part behind the last `c` begins.
pub proof fn lemma_after_last(s: Seq<char>, k: int, c: char)
    requires
        0 <= k <= s.len(),
        forall|j: int| k <= j < s.len() ==> s[j] != c,
        k == 0 || s[k - 1] == c,
    ensures
        after_last(s, c) == s.skip(k),
    decreases s.len(),
{
    if k == s.len() {
        assert(s.skip(k) =~= Seq::<char>::empty());
    } else {
        lemma_after_last(s.drop_last(), k, c);
        assert(s.skip(k) =~= s.drop_last().skip(k).push(s.last()));
    }
}

/// Index behind the last `c` in `s`, or 0 where there is none.
pub fn behind_last(s: &[char], c: char) -> (r: usize)
    ensures
        r <= s@.len(),
        s@.skip(r as int) == after_last(s@, c),
        r > 0 <==> s@.contains(c),
        r > 0 ==> s@[r - 1] == c,
{
    let mut i: usize = s.len();
    while i > 0
        invariant
            i <= s@.len(),
            forall|j: int| i <= j < s@.len() ==> s@[j] != c,
        decreases i,
    {
        if s[i - 1] == c {
            proof {
                assert(s@[i - 1] == c);
                lemma_after_last(s@, i as int, c);
            }
            return i;
        }
        i = i - 1;
    }
    proof {
        lemma_after_last(s@, 0, c);
    }
    0
}

/// Decimal digits of `n`, with no leading zero.
pub open spec fn decimal(n: nat) -> Seq<char>
    decreases n,
{
    if n < 10 {
        seq![digit_char(n)]
    } else {
        decimal(n / 10).push(digit_char(n % 10))
    }
}

/// The character of a digit below ten.
pub open spec fn digit_char(d: nat) -> char {
    (('0' as u32) + d) as char
}

/// Decimal text of a signed number.
pub open spec fn signed_decimal(n: int) -> Seq<char> {
    if n < 0 {
        seq!['-'] + decimal((-n) as nat)
    } else {
        decimal(n as nat)
    }
}

fn digit(d: u64) -> (c: char)
    requires
        d < 10,
    ensures
        c == digit_char(d as nat),
{
    match d {
        0 => '0',
        1 => '1',
        2 => '2',
        3 => '3',
        4 => '4',
        5 => '5',
        6 => '6',
        7 => '7',
        8 => '8',
        _ => '9',
    }
}

/// Appends the decimal text of `n`.
pub fn push_decimal(s: &mut String, n: u64)
    ensures
        final(s)@ == old(s)@ + decimal(n as nat),
    decreases n,
{
    if n >= 10 {
        push_decimal(s, n / 10);
        s.push(digit(n % 10));
        assert(s@ =~= old(s)@ + decimal(n as nat));
    } else {
        s.push(digit(n));
        assert(s@ =~= old(s)@ + decimal(n as nat));
    }
}

/// Appends the decimal text of a signed number.
pub fn push_signed(s: &mut String, n: i64)
    ensures
        final(s)@ == old(s)@ + signed_decimal(n as int),
{
    if n < 0 {
        s.push('-');
        let magnitude: u64 = if n == i64::MIN {
            9223372036854775808
        } else {
            (-n) as u64
        };
        push_decimal(s, magnitude);
        assert(s@ =~= old(s)@ + signed_decimal(n as int));
    } else {
        push_decimal(s, n as u64);
    }
}

/// The decimal text of `n`.
pub fn decimal_string(n: u64) -> (s: String)
    ensures
        s@ == decimal(n as nat),
{
    let mut s = String::new();
    push_decimal(&mut s, n);
    assert(s@ =~= decimal(n as nat));
    s
}

/// Number of bytes of the UTF-8 encoding of `s`.
pub open spec fn bytes(s: Seq<char>) -> nat {
    encode_utf8(s).len()
}

/// Number of bytes of `s`.
pub fn byte_len(s: &str) -> (r: usize)
    ensures
        r == bytes(s@),
{
    s.as_bytes().len()
}

/// The encoding of two strings is the encodings one after the other.
pub proof fn lemma_encode_concat(a: Seq<char>, b: Seq<char>)
    ensures
        encode_utf8(a + b) == encode_utf8(a) + encode_utf8(b),
        bytes(a + b) == bytes(a) + bytes(b),
    decreases a.len(),
{
    if a.len() == 0 {
        assert(a + b =~= b);
        assert(encode_utf8(a) + encode_utf8(b) =~= encode_utf8(b));
    } else {
        let rest = a.drop_first();
        lemma_encode_concat(rest, b);
        assert((a + b).drop_first() =~= rest + b);
        assert((a + b)[0] == a[0]);
        assert(encode_utf8(a + b) =~= encode_utf8(a) + encode_utf8(b));
    }
}

/// Strings with the same encoding are the same.
pub proof fn lemma_encode_injective(a: Seq<char>, b: Seq<char>)
    requires
        encode_utf8(a) == encode_utf8(b),
    ensures
        a == b,
{
    encode_utf8_decode_utf8(a);
    encode_utf8_decode_utf8(b);
}

/// A string whose encoding begins with that of another begins with the other.
pub proof fn lemma_encode_prefix(s: Seq<char>, p: Seq<char>)
    requires
        encode_utf8(p).len() <= encode_utf8(s).len(),
        encode_utf8(s).take(encode_utf8(p).len() as int) == encode_utf8(p),
    ensures
        begins_with(s, p),
    decreases p.len(),
{
    let x = encode_utf8(p);
    let y = encode_utf8(s);
    if p.len() == 0 {
        assert(s.take(0) =~= p);
    } else {
        encode_utf8_first_scalar(p);
        assert(s.len() > 0) by {
            if s.len() == 0 {
                assert(y.len() == 0);
            }
        }
        encode_utf8_first_scalar(s);
        let w = encode_scalar(p[0] as u32).len() as int;
        assert(forall|i: int| 0 <= i < x.len() ==> x[i] == y.take(x.len() as int)[i]);
        assert(forall|i: int| 0 <= i < w ==> x[i] == y[i]);
        assert(x[0] == y[0]);
        assert(length_of_first_scalar(x) == length_of_first_scalar(y));
        assert(decode_first_scalar(x) == decode_first_scalar(y));
        char_u32_cast(p[0], decode_first_scalar(x));
        char_u32_cast(s[0], decode_first_scalar(y));
        let p1 = p.drop_first();
        let s1 = s.drop_first();
        assert(encode_utf8(p1) =~= x.skip(w));
        assert(encode_utf8(s1) =~= y.skip(w));
        assert(encode_utf8(s1).take(encode_utf8(p1).len() as int) =~= encode_utf8(p1)) by {
            assert forall|i: int| 0 <= i < encode_utf8(p1).len() implies encode_utf8(s1)[i]
                == encode_utf8(p1)[i] by {
                assert(x[i + w] == y[i + w]);
            }
        }
        lemma_encode_prefix(s1, p1);
        assert(s.take(p.len() as int) =~= p) by {
            assert forall|i: int| 0 <= i < p.len() implies s[i] == p[i] by {
                if i > 0 {
                    assert(s1.take(p1.len() as int)[i - 1] == p1[i - 1]);
                }
            }
        }
    }
}

/// A part of a string has at most as many bytes as the string.
pub proof fn lemma_bytes_subrange(s: Seq<char>, from: int, to: int)
    requires
        0 <= from <= to <= s.len(),
    ensures
        bytes(s.subrange(from, to)) + bytes(s.take(from)) + bytes(s.skip(to)) == bytes(s),
{
    lemma_encode_concat(s.take(from), s.subrange(from, to));
    assert(s.take(from) + s.subrange(from, to) =~= s.take(to));
    lemma_encode_concat(s.take(to), s.skip(to));
    assert(s.take(to) + s.skip(to) =~= s);
}

/// A string has at least one byte per character.
pub proof fn lemma_bytes_at_least(s: Seq<char>)
    ensures
        s.len() <= bytes(s),
    decreases s.len(),
{
    if s.len() > 0 {
        lemma_bytes_at_least(s.drop_first());
    }
}

/// A character with the Unicode property `White_Space`.
pub open spec fn is_white(c: char) -> bool {
    let u = c as u32;
    ||| 0x9 <= u <= 0xd
    ||| u == 0x20
    ||| u == 0x85
    ||| u == 0xa0
    ||| u == 0x1680
    ||| 0x2000 <= u <= 0x200a
    ||| u == 0x2028
    ||| u == 0x2029
    ||| u == 0x202f
    ||| u == 0x205f
    ||| u == 0x3000
}

/// Whether a character is white space.
pub fn is_whitespace(c: char) -> (r: bool)
    ensures
        r == is_white(c),
{
    let u: u32 = c as u32;
    (0x9 <= u && u <= 0xd) || u == 0x20 || u == 0x85 || u == 0xa0 || u == 0x1680 || (0x2000 <= u
        && u <= 0x200a) || u == 0x2028 || u == 0x2029 || u == 0x202f || u == 0x205f || u == 0x3000
}

/// First position from `i` on that holds no white space, or the end.
pub open spec fn white_end(s: Seq<char>, i: int) -> int
    decreases s.len() - i,
{
    if 0 <= i < s.len() && is_white(s[i]) {
        white_end(s, i + 1)
    } else {
        i
    }
}

/// Position behind the last character before `j` that is no white space.
pub open spec fn white_start(s: Seq<char>, j: int) -> int
    decreases j,
{
    if 0 < j <= s.len() && is_white(s[j - 1]) {
        white_start(s, j - 1)
    } else {
        j
    }
}

/// White space from a position on is skipped forwards.
pub proof fn lemma_white_end(s: Seq<char>, i: int)
    requires
        0 <= i <= s.len(),
    ensures
        i <= white_end(s, i) <= s.len(),
        forall|k: int| i <= k < white_end(s, i) ==> is_white(#[trigger] s[k]),
        white_end(s, i) < s.len() ==> !is_white(s[white_end(s, i)]),
    decreases s.len() - i,
{
    if i < s.len() && is_white(s[i]) {
        lemma_white_end(s, i + 1);
    }
}

/// White space before a position is skipped backwards.
pub proof fn lemma_white_start(s: Seq<char>, j: int)
    requires
        0 <= j <= s.len(),
    ensures
        0 <= white_start(s, j) <= j,
        forall|k: int| white_start(s, j) <= k < j ==> is_white(#[trigger] s[k]),
        white_start(s, j) > 0 ==> !is_white(s[white_start(s, j) - 1]),
    decreases j,
{
    if j > 0 && is_white(s[j - 1]) {
        lemma_white_start(s, j - 1);
    }
}

/// `s` without white space at either end.
pub open spec fn trimmed(s: Seq<char>) -> Seq<char> {
    let a = white_end(s, 0);
    let b = white_start(s, s.len() as int);
    if a <= b {
        s.subrange(a, b)
    } else {
        Seq::empty()
    }
}

/// Whether `s` is nothing but white space.
pub open spec fn blank(s: Seq<char>) -> bool {
    forall|i: int| 0 <= i < s.len() ==> is_white(#[trigger] s[i])
}

/// `v[from..to]` without white space at either end.
pub fn trim_range(v: &[char], from: usize, to: usize) -> (r: String)
    requires
        from <= to <= v@.len(),
    ensures
        r@ == trimmed(v@.subrange(from as int, to as int)),
{
    let ghost s = v@.subrange(from as int, to as int);
    let mut a: usize = from;
    proof {
        lemma_white_end(s, 0);
        lemma_white_start(s, s.len() as int);
    }
    while a < to && is_whitespace(v[a])
        invariant
            from <= a <= to <= v@.len(),
            s == v@.subrange(from as int, to as int),
            white_end(s, 0) == white_end(s, a - from),
        decreases to - a,
    {
        assert(s[a - from] == v@[a as int]);
        a = a + 1;
    }
    if a < to {
        assert(s[a - from] == v@[a as int]);
    }
    assert(white_end(s, 0) == a - from);
    let mut b: usize = to;
    while b > from && is_whitespace(v[b - 1])
        invariant
            from <= b <= to <= v@.len(),
            s == v@.subrange(from as int, to as int),
            white_start(s, s.len() as int) == white_start(s, b - from),
        decreases b - from,
    {
        assert(s[b - from - 1] == v@[b - 1]);
        b = b - 1;
    }
    if b > from {
        assert(s[b - from - 1] == v@[b - 1]);
    }
    assert(white_start(s, s.len() as int) == b - from);
    if a <= b {
        let r = from_chars(v, a, b);
        assert(r@ =~= trimmed(s));
        r
    } else {
        String::new()
    }
}

/// `s` without white space at either end.
pub fn trim(s: &str) -> (r: String)
    ensures
        r@ == trimmed(s@),
{
    let v = to_chars(s);
    let r = trim_range(v.as_slice(), 0, v.len());
    assert(v@.subrange(0, v@.len() as int) =~= s@);
    r
}

/// The views of some strings.
pub open spec fn texts(v: Seq<String>) -> Seq<Seq<char>> {
    v.map_values(|s: String| s@)
}

/// Whether `s` begins with `p`.
pub open spec fn begins_with(s: Seq<char>, p: Seq<char>) -> bool {
    p.len() <= s.len() && s.take(p.len() as int) == p
}

/// Whether `s` begins with `p`.
pub fn starts_with(s: &[char], p: &str) -> (r: bool)
    ensures
        r == begins_with(s@, p@),
{
    let q = to_chars(p);
    if q.len() > s.len() {
        return false;
    }
    let mut i: usize = 0;
    while i < q.len()
        invariant
            i <= q@.len() <= s@.len(),
            q@ == p@,
            forall|j: int| 0 <= j < i ==> s@[j] == q@[j],
        decreases q@.len() - i,
    {
        if s[i] != q[i] {
            assert(s@.take(p@.len() as int)[i as int] != p@[i as int]);
            return false;
        }
        i = i + 1;
    }
    assert(s@.take(p@.len() as int) =~= p@);
    true
}

/// `a` comes before `b` in the order of their characters, which is also the order of their
/// UTF-8 bytes.
pub open spec fn before(a: Seq<char>, b: Seq<char>) -> bool
    decreases a.len(),
{
    if b.len() == 0 {
        false
    } else if a.len() == 0 {
        true
    } else if a[0] != b[0] {
        (a[0] as u32) < (b[0] as u32)
    } else {
        before(a.skip(1), b.skip(1))
    }
}

/// No text comes before itself.
pub proof fn lemma_before_irreflexive(a: Seq<char>)
    ensures
        !before(a, a),
    decreases a.len(),
{
    if a.len() > 0 {
        lemma_before_irreflexive(a.skip(1));
    }
}

/// The order of texts is transitive.
pub proof fn lemma_before_transitive(a: Seq<char>, b: Seq<char>, c: Seq<char>)
    requires
        before(a, b),
        before(b, c),
    ensures
        before(a, c),
    decreases a.len(),
{
    if a.len() > 0 && a[0] == b[0] && b[0] == c[0] {
        lemma_before_transitive(a.skip(1), b.skip(1), c.skip(1));
    }
}

/// Of two different texts one comes before the other.
pub proof fn lemma_before_total(a: Seq<char>, b: Seq<char>)
    ensures
        a == b || before(a, b) || before(b, a),
    decreases a.len(),
{
    if a.len() == 0 || b.len() == 0 {
        if a.len() == 0 && b.len() == 0 {
            assert(a =~= b);
        }
    } else if a[0] == b[0] {
        lemma_before_total(a.skip(1), b.skip(1));
        if a.skip(1) == b.skip(1) {
            assert(a =~= seq![a[0]] + a.skip(1));
            assert(b =~= seq![b[0]] + b.skip(1));
        }
    } else {
        char_u32_cast(a[0], a[0] as u32);
        char_u32_cast(b[0], b[0] as u32);
        assert(a[0] as u32 != b[0] as u32);
        assert(before(a, b) || before(b, a));
    }
}

/// Whether `a` comes before `b`.
pub fn text_before(a: &str, b: &str) -> (r: bool)
    ensures
        r == before(a@, b@),
{
    let x = to_chars(a);
    let y = to_chars(b);
    let mut i: usize = 0;
    proof {
        assert(x@.skip(0) =~= x@);
        assert(y@.skip(0) =~= y@);
    }
    while i < x.len() && i < y.len()
        invariant
            x@ == a@,
            y@ == b@,
            i <= x@.len(),
            i <= y@.len(),
            before(x@, y@) == before(x@.skip(i as int), y@.skip(i as int)),
        decreases x@.len() - i,
    {
        if x[i] != y[i] {
            return (x[i] as u32) < (y[i] as u32);
        }
        proof {
            assert(x@.skip(i as int).skip(1) =~= x@.skip(i + 1));
            assert(y@.skip(i as int).skip(1) =~= y@.skip(i + 1));
        }
        i = i + 1;
    }
    i < y.len()
}

/// Whether a text holds another.
pub open spec fn holds(s: Seq<char>, p: Seq<char>) -> bool {
    exists|i: int| 0 <= i <= s.len() - p.len() && #[trigger] s.subrange(i, i + p.len()) == p
}

/// Whether a text holds another.
pub fn contains_text(s: &[char], p: &str) -> (r: bool)
    ensures
        r == holds(s@, p@),
{
    let q = to_chars(p);
    let n: usize = s.len();
    if q.len() == 0 {
        assert(s@.subrange(0, 0int + p@.len()) =~= p@);
        return true;
    }
    if q.len() > n {
        return false;
    }
    let last: usize = n - q.len();
    let mut i: usize = 0;
    while i <= last
        invariant
            q@ == p@,
            n == s@.len(),
            q@.len() > 0,
            last == n - q@.len(),
            i <= last + 1,
            forall|k: int| 0 <= k < i ==> #[trigger] s@.subrange(k, k + p@.len()) != p@,
        decreases last + 1 - i,
    {
        let part = from_chars(s, i, i + q.len());
        if same_text(part.as_str(), p) {
            assert(s@.subrange(i as int, i + p@.len()) == p@);
            return true;
        }
        i = i + 1;
    }
    false
}

/// Number of places at which a text holds another, from position `i` on, that do not overlap
/// and are taken from the left.
pub open spec fn match_count(s: Seq<char>, p: Seq<char>, i: int) -> nat
    decreases s.len() - i,
{
    if p.len() == 0 || i + p.len() > s.len() {
        0
    } else if s.subrange(i, i + p.len()) == p {
        1 + match_count(s, p, i + p.len())
    } else {
        match_count(s, p, i + 1)
    }
}

/// Number of places at which a text holds another that is not empty.
pub fn count_matches(s: &[char], p: &str) -> (r: usize)
    requires
        p@.len() > 0,
    ensures
        r == match_count(s@, p@, 0),
{
    let q = to_chars(p);
    let n: usize = s.len();
    let m: usize = q.len();
    let mut count: usize = 0;
    let mut i: usize = 0;
    while i < n && m <= n - i
        invariant
            q@ == p@,
            n == s@.len(),
            m == q@.len(),
            m > 0,
            i <= n,
            count <= i,
            match_count(s@, p@, 0) == count + match_count(s@, p@, i as int),
        decreases n - i,
    {
        let part = from_chars(s, i, i + m);
        if same_text(part.as_str(), p) {
            assert(s@.subrange(i as int, i + p@.len()) == p@);
            count = count + 1;
            i = i + m;
        } else {
            i = i + 1;
        }
    }
    assert(match_count(s@, p@, i as int) == 0);
    count
}

/// A word, unless it is empty.
pub open spec fn nonempty(run: Seq<char>) -> Seq<Seq<char>> {
    if run.len() > 0 {
        seq![run]
    } else {
        Seq::empty()
    }
}

/// The words of a text from position `i` on, where the present word began at `start`.
pub open spec fn words_from(s: Seq<char>, start: int, i: int) -> Seq<Seq<char>>
    decreases s.len() - i,
{
    if i >= s.len() {
        nonempty(s.subrange(start, s.len() as int))
    } else if is_white(s[i]) {
        nonempty(s.subrange(start, i)) + words_from(s, i + 1, i + 1)
    } else {
        words_from(s, start, i + 1)
    }
}

/// The words of a text: what stands between white space.
pub open spec fn words(s: Seq<char>) -> Seq<Seq<char>> {
    words_from(s, 0, 0)
}

/// The words of a text.
pub fn split_words(text: &str) -> (r: Vec<String>)
    ensures
        texts(r@) == words(text@),
        r@.len() <= text@.len(),
        forall|i: int| 0 <= i < r@.len() ==> (#[trigger] r@[i])@.len() > 0,
{
    let chars = to_chars(text);
    let ghost s = chars@;
    let mut out: Vec<String> = Vec::new();
    let mut start: usize = 0;
    let mut i: usize = 0;
    assert(texts(out@) + words_from(s, 0, 0) =~= words(s));
    while i < chars.len()
        invariant
            s == chars@,
            start <= i <= s.len(),
            texts(out@) + words_from(s, start as int, i as int) == words(s),
            out@.len() <= start,
            forall|k: int| 0 <= k < out@.len() ==> (#[trigger] out@[k])@.len() > 0,
        decreases s.len() - i,
    {
        if is_whitespace(chars[i]) {
            let ghost was = texts(out@);
            if start < i {
                let ghost old_out = out@;
                let word = from_chars(chars.as_slice(), start, i);
                out.push(word);
                assert(texts(out@) =~= texts(old_out).push(word@));
            }
            assert(texts(out@) =~= was + nonempty(s.subrange(start as int, i as int)));
            assert(was + (nonempty(s.subrange(start as int, i as int)) + words_from(
                s,
                i + 1,
                i + 1,
            )) =~= texts(out@) + words_from(s, i + 1, i + 1));
            start = i + 1;
        }
        i = i + 1;
    }
    let ghost was = texts(out@);
    if start < i {
        let ghost old_out = out@;
        let word = from_chars(chars.as_slice(), start, i);
        out.push(word);
        assert(texts(out@) =~= texts(old_out).push(word@));
    }
    assert(texts(out@) =~= was + nonempty(s.subrange(start as int, i as int)));
    out
}

/// Texts one after the other, with a separator between them.
pub open spec fn joined(parts: Seq<Seq<char>>, separator: Seq<char>) -> Seq<char>
    decreases parts.len(),
{
    if parts.len() == 0 {
        Seq::empty()
    } else if parts.len() == 1 {
        parts[0]
    } else {
        joined(parts.drop_last(), separator) + separator + parts.last()
    }
}

/// Puts texts one after the other, with a separator between them.
pub fn join(parts: &[String], separator: &str) -> (r: String)
    ensures
        r@ == joined(texts(parts@), separator@),
{
    let mut r = String::new();
    let mut i: usize = 0;
    while i < parts.len()
        invariant
            i <= parts@.len(),
            r@ == joined(texts(parts@.take(i as int)), separator@),
        decreases parts@.len() - i,
    {
        let ghost now = texts(parts@.take(i + 1));
        assert(now.drop_last() =~= texts(parts@.take(i as int)));
        assert(now.last() == parts@[i as int]@);
        if i > 0 {
            push_str(&mut r, separator);
        }
        push_str(&mut r, parts[i].as_str());
        assert(r@ =~= joined(now, separator@));
        i = i + 1;
    }
    assert(parts@.take(i as int) =~= parts@);
    r
}

/// The parts of a text between separators, the first of them from `start` on.
pub open spec fn parts_from(s: Seq<char>, separator: char, start: int, i: int) -> Seq<Seq<char>>
    decreases s.len() - i,
{
    if i >= s.len() {
        seq![s.subrange(start, s.len() as int)]
    } else if s[i] == separator {
        seq![s.subrange(start, i)] + parts_from(s, separator, i + 1, i + 1)
    } else {
        parts_from(s, separator, start, i + 1)
    }
}

/// Splits a text at a separator.
pub fn split_at_char(text: &str, separator: char) -> (r: Vec<String>)
    ensures
        texts(r@) == parts_from(text@, separator, 0, 0),
{
    let chars = to_chars(text);
    let n: usize = chars.len();
    let mut r: Vec<String> = Vec::new();
    let mut start: usize = 0;
    let mut i: usize = 0;
    assert(texts(r@) + parts_from(text@, separator, 0, 0) =~= parts_from(text@, separator, 0, 0));
    while i < n
        invariant
            start <= i <= n,
            n == chars@.len(),
            chars@ == text@,
            texts(r@) + parts_from(text@, separator, start as int, i as int) == parts_from(
                text@,
                separator,
                0,
                0,
            ),
        decreases n - i,
    {
        if chars[i] == separator {
            let ghost before = texts(r@);
            let part = from_chars(chars.as_slice(), start, i);
            let ghost rest = parts_from(text@, separator, i + 1, i + 1);
            assert(part@ =~= text@.subrange(start as int, i as int));
            r.push(part);
            assert(texts(r@) =~= before.push(part@));
            assert(texts(r@) + rest =~= before + (seq![part@] + rest));
            start = i + 1;
        }
        i = i + 1;
    }
    let ghost before = texts(r@);
    let part = from_chars(chars.as_slice(), start, n);
    assert(part@ =~= text@.subrange(start as int, n as int));
    r.push(part);
    assert(texts(r@) =~= before + seq![part@]);
    r
}

/// Joining the parts of a text with the separator gives the text.
pub proof fn law_split_and_join(s: Seq<char>, separator: char, start: int, i: int)
    requires
        0 <= start <= i <= s.len(),
    ensures
        parts_from(s, separator, start, i).len() > 0,
        joined(parts_from(s, separator, start, i), seq![separator]) == s.skip(start),
    decreases s.len() - i,
{
    let parts = parts_from(s, separator, start, i);
    if i >= s.len() {
        assert(s.subrange(start, s.len() as int) =~= s.skip(start));
    } else if s[i] == separator {
        law_split_and_join(s, separator, i + 1, i + 1);
        let rest = parts_from(s, separator, i + 1, i + 1);
        lemma_joined_front(s.subrange(start, i), rest, seq![separator]);
        assert(s.subrange(start, i) + seq![separator] + s.skip(i + 1) =~= s.skip(start));
    } else {
        law_split_and_join(s, separator, start, i + 1);
    }
}

/// A text in front of others is joined to them by one separator.
pub proof fn lemma_joined_front(first: Seq<char>, rest: Seq<Seq<char>>, separator: Seq<char>)
    requires
        rest.len() > 0,
    ensures
        joined(seq![first] + rest, separator) == first + separator + joined(rest, separator),
    decreases rest.len(),
{
    let all = seq![first] + rest;
    assert(all.drop_last() =~= seq![first] + rest.drop_last());
    assert(all.last() == rest.last());
    if rest.len() == 1 {
        assert(all.drop_last() =~= seq![first]);
        assert(joined(seq![first], separator) == first);
    } else {
        lemma_joined_front(first, rest.drop_last(), separator);
        assert(first + separator + joined(rest.drop_last(), separator) + separator + rest.last()
            =~= first + separator + (joined(rest.drop_last(), separator) + separator
            + rest.last()));
    }
}

/// Whether the first `n` bytes of a text are whole characters.
pub open spec fn cut_falls_between(s: Seq<char>, n: nat) -> bool {
    exists|k: int| 0 <= k <= s.len() && bytes(#[trigger] s.take(k)) == n
}

/// The first `n` bytes of a text, where they are whole characters.
pub open spec fn first_bytes(s: Seq<char>, n: nat) -> Seq<char> {
    s.take(choose|k: int| 0 <= k <= s.len() && bytes(#[trigger] s.take(k)) == n)
}

/// A longer part of a text has more bytes.
proof fn lemma_take_bytes(s: Seq<char>, j: int, k: int)
    requires
        0 <= j < k <= s.len(),
    ensures
        bytes(s.take(j)) < bytes(s.take(k)),
{
    let part = s.subrange(j, k);
    lemma_encode_concat(s.take(j), part);
    assert(s.take(j) + part =~= s.take(k));
    lemma_bytes_at_least(part);
}

/// The first `n` bytes of a text, unless they end inside a character or the text is shorter.
pub fn take_bytes(s: &str, n: usize) -> (r: Option<String>)
    ensures
        match r {
            Some(t) => cut_falls_between(s@, n as nat) && t@ == first_bytes(s@, n as nat),
            None => !cut_falls_between(s@, n as nat),
        },
{
    let chars = to_chars(s);
    let mut k: usize = 0;
    loop
        invariant
            chars@ == s@,
            k <= chars@.len(),
            forall|j: int| 0 <= j < k ==> bytes(#[trigger] s@.take(j)) < n,
        decreases chars@.len() - k,
    {
        let head = from_chars(chars.as_slice(), 0, k);
        assert(head@ =~= s@.take(k as int));
        let size: usize = byte_len(head.as_str());
        if size == n {
            proof {
                assert(bytes(s@.take(k as int)) == n);
                let c = choose|c: int| 0 <= c <= s@.len() && bytes(#[trigger] s@.take(c)) == n;
                if c < k {
                    lemma_take_bytes(s@, c, k as int);
                } else if k < c {
                    lemma_take_bytes(s@, k as int, c);
                }
            }
            return Some(head);
        }
        if size > n || k == chars.len() {
            proof {
                assert forall|c: int| 0 <= c <= s@.len() implies bytes(#[trigger] s@.take(c))
                    != n by {
                    if k < c {
                        lemma_take_bytes(s@, k as int, c);
                    }
                }
            }
            return None;
        }
        k = k + 1;
    }
}

/// A text, or its first bytes with dots behind them where it is longer than allowed.
pub open spec fn previewed(s: Seq<char>, limit: nat, keep: nat) -> Seq<char> {
    if bytes(s) > limit {
        first_bytes(s, keep) + "..."@
    } else {
        s
    }
}

/// Whether a text can be cut for a preview.
pub open spec fn previewable(s: Seq<char>, limit: nat, keep: nat) -> bool {
    bytes(s) > limit ==> cut_falls_between(s, keep)
}

/// Whether a text can be cut for a preview.
pub fn can_preview(s: &str, limit: usize, keep: usize) -> (r: bool)
    ensures
        r == previewable(s@, limit as nat, keep as nat),
{
    byte_len(s) <= limit || take_bytes(s, keep).is_some()
}

/// A text, or its first bytes with dots behind them where it is longer than allowed.
pub fn preview(s: &str, limit: usize, keep: usize) -> (r: String)
    requires
        previewable(s@, limit as nat, keep as nat),
    ensures
        r@ == previewed(s@, limit as nat, keep as nat),
{
    if byte_len(s) > limit {
        if let Some(mut head) = take_bytes(s, keep) {
            push_str(&mut head, "...");
            return head;
        }
    }
    copy_str(s)
}

/// Whether a character is a decimal digit.
pub open spec fn is_digit(c: char) -> bool {
    '0' <= c <= '9'
}

/// The number that some decimal digits write.
pub open spec fn digits_value(s: Seq<char>) -> nat
    decreases s.len(),
{
    if s.len() == 0 {
        0
    } else {
        digits_value(s.drop_last()) * 10 + ((s.last() as u32 - '0' as u32) as nat)
    }
}

/// A text without a plus sign at its beginning.
pub open spec fn without_plus(s: Seq<char>) -> Seq<char> {
    if s.len() > 0 && s[0] == '+' {
        s.skip(1)
    } else {
        s
    }
}

/// The unsigned number that a text writes: decimal digits, behind a plus sign or not.
pub open spec fn unsigned_number(s: Seq<char>) -> Option<nat> {
    let d = without_plus(s);
    if d.len() > 0 && forall|i: int| 0 <= i < d.len() ==> is_digit(#[trigger] d[i]) {
        Some(digits_value(d))
    } else {
        None
    }
}

/// The unsigned number that a text writes, unless it is larger than allowed.
pub fn parse_number(s: &str, max: u64) -> (r: Option<u64>)
    ensures
        r == (match unsigned_number(s@) {
            Some(n) => if n <= max {
                Some(n as u64)
            } else {
                None
            },
            None => None,
        }),
{
    let chars = to_chars(s);
    let n: usize = chars.len();
    let start: usize = if n > 0 && chars[0] == '+' {
        1
    } else {
        0
    };
    let ghost d = without_plus(s@);
    assert(d =~= chars@.skip(start as int));
    if start == n {
        return None;
    }
    let mut value: u64 = 0;
    let mut fits: bool = true;
    let mut i: usize = start;
    assert(d.take(0) =~= Seq::<char>::empty());
    while i < n
        invariant
            n == chars@.len(),
            start <= i <= n,
            d == chars@.skip(start as int),
            d == without_plus(s@),
            forall|k: int| 0 <= k < i - start ==> is_digit(#[trigger] d[k]),
            fits ==> value == digits_value(d.take(i - start)) && value <= max,
            !fits ==> digits_value(d.take(i - start)) > max,
        decreases n - i,
    {
        let c: char = chars[i];
        assert(c == d[i - start]);
        if c < '0' || c > '9' {
            assert(!is_digit(d[i - start]));
            return None;
        }
        proof {
            assert(d.take(i + 1 - start).drop_last() =~= d.take(i - start));
            assert(d.take(i + 1 - start).last() == c);
        }
        if fits {
            let next: u128 = (value as u128) * 10 + ((c as u32 - '0' as u32) as u128);
            if next <= max as u128 {
                value = next as u64;
            } else {
                fits = false;
            }
        }
        i = i + 1;
    }
    assert(d.take(n - start) =~= d);
    if fits {
        Some(value)
    } else {
        None
    }
}

/// What `str::to_lowercase` makes of a text.
pub uninterp spec fn lowercase(s: Seq<char>) -> Seq<char>;

/// Calls `str::to_lowercase`, whose result is named [`lowercase`].
#[verifier::external_body]
pub(crate) fn to_lower(s: &str) -> (r: String)
    ensures
        r@ == lowercase(s@),
{
    s.to_lowercase()
}

/// Whether `char::is_alphanumeric` holds of a character.
pub uninterp spec fn alphanumeric(c: char) -> bool;

/// Calls `char::is_alphanumeric`, whose result is named [`alphanumeric`].
#[verifier::external_body]
pub(crate) fn is_alphanumeric(c: char) -> (r: bool)
    ensures
        r == alphanumeric(c),
{
    c.is_alphanumeric()
}

/// Whether a text stands in another at a position.
#[verifier::opaque]
pub open spec fn stands_at(s: Seq<char>, p: Seq<char>, i: int) -> bool {
    0 <= i <= s.len() - p.len() && s.subrange(i, i + p.len()) == p
}

/// Whether a position lies inside one of some places of a length.
#[verifier::opaque]
pub open spec fn inside_one(at: Seq<int>, n: nat, i: int) -> bool {
    exists|k: int| 0 <= k < at.len() && #[trigger] at[k] <= i < at[k] + n
}

/// Whether `at` lists, from the left, the places at which a text holds another: they do not
/// overlap, and every place at which it stands begins inside one of them.
pub open spec fn match_places(s: Seq<char>, p: Seq<char>, from: int, at: Seq<int>) -> bool {
    &&& forall|k: int| 0 <= k < at.len() ==> from <= #[trigger] at[k] && stands_at(s, p, at[k])
    &&& forall|j: int, k: int|
        0 <= j < k < at.len() ==> #[trigger] at[j] + p.len() <= #[trigger] at[k]
    &&& forall|i: int| from <= i && #[trigger] stands_at(s, p, i) ==> inside_one(at, p.len(), i)
}

proof fn lemma_inside_first(i: int, rest: Seq<int>, n: nat, x: int)
    requires
        i <= x < i + n || inside_one(rest, n, x),
    ensures
        inside_one(seq![i] + rest, n, x),
{
    reveal(inside_one);
    let at = seq![i] + rest;
    if i <= x < i + n {
        assert(at[0] == i);
    } else {
        let k = choose|k: int| 0 <= k < rest.len() && #[trigger] rest[k] <= x < rest[k] + n;
        assert(at[k + 1] == rest[k]);
    }
}

proof fn lemma_match_first(s: Seq<char>, p: Seq<char>, i: int, rest: Seq<int>)
    requires
        0 <= i,
        p.len() > 0,
        stands_at(s, p, i),
        match_places(s, p, i + p.len(), rest),
    ensures
        match_places(s, p, i, seq![i] + rest),
{
    let at = seq![i] + rest;
    assert forall|k: int| 0 <= k < at.len() implies i <= #[trigger] at[k] && stands_at(
        s,
        p,
        at[k],
    ) by {
        if k > 0 {
            assert(at[k] == rest[k - 1]);
        }
    }
    assert forall|j: int, k: int| 0 <= j < k < at.len() implies #[trigger] at[j] + p.len()
        <= #[trigger] at[k] by {
        assert(at[k] == rest[k - 1]);
        if j > 0 {
            assert(at[j] == rest[j - 1]);
        }
    }
    assert forall|x: int| i <= x && #[trigger] stands_at(s, p, x) implies inside_one(
        at,
        p.len(),
        x,
    ) by {
        if x >= i + p.len() {
            assert(inside_one(rest, p.len(), x));
        }
        lemma_inside_first(i, rest, p.len(), x);
    }
}

proof fn lemma_match_places(s: Seq<char>, p: Seq<char>, i: int) -> (at: Seq<int>)
    requires
        0 <= i,
        p.len() > 0,
    ensures
        at.len() == match_count(s, p, i),
        match_places(s, p, i, at),
    decreases s.len() - i,
{
    if i + p.len() > s.len() {
        let at: Seq<int> = Seq::empty();
        assert(match_places(s, p, i, at)) by {
            reveal(stands_at);
        }
        at
    } else if s.subrange(i, i + p.len()) == p {
        let rest = lemma_match_places(s, p, i + p.len());
        assert(stands_at(s, p, i)) by {
            reveal(stands_at);
        }
        lemma_match_first(s, p, i, rest);
        seq![i] + rest
    } else {
        let at = lemma_match_places(s, p, i + 1);
        assert(!stands_at(s, p, i)) by {
            reveal(stands_at);
        }
        at
    }
}

/// The number of times that a text holds another is the number of its places, taken from the
/// left without overlap; it is zero exactly where the text does not hold the other.
pub proof fn law_match_count(s: Seq<char>, p: Seq<char>)
    requires
        p.len() > 0,
    ensures
        exists|at: Seq<int>|
            #[trigger] match_places(s, p, 0, at) && at.len() == match_count(s, p, 0),
        match_count(s, p, 0) > 0 <==> exists|i: int|
            0 <= i <= s.len() - p.len() && #[trigger] s.subrange(i, i + p.len()) == p,
{
    let at = lemma_match_places(s, p, 0);
    assert(match_places(s, p, 0, at));
    if at.len() > 0 {
        assert(stands_at(s, p, at[0]));
        reveal(stands_at);
        assert(s.subrange(at[0], at[0] + p.len()) == p);
    }
    if exists|i: int| 0 <= i <= s.len() - p.len() && #[trigger] s.subrange(i, i + p.len()) == p {
        let i = choose|i: int|
            0 <= i <= s.len() - p.len() && #[trigger] s.subrange(i, i + p.len()) == p;
        assert(stands_at(s, p, i)) by {
            reveal(stands_at);
        }
        assert(inside_one(at, p.len(), i));
        assert(at.len() > 0) by {
            reveal(inside_one);
        }
    }
}

/// Whether a stretch of a text is a whole run of characters of a kind.
pub open spec fn is_run(s: Seq<char>, kind: spec_fn(char) -> bool, r: (int, int)) -> bool {
    &&& 0 <= r.0 < r.1 <= s.len()
    &&& forall|k: int| r.0 <= k < r.1 ==> kind(#[trigger] s[k])
    &&& r.0 == 0 || !kind(s[r.0 - 1])
    &&& r.1 == s.len() || !kind(s[r.1])
}

/// Whether `w` lists, in order, all whole runs of characters of a kind, from a position on, that
/// are wanted.
pub open spec fn lists_runs(
    s: Seq<char>,
    kind: spec_fn(char) -> bool,
    wanted: spec_fn(Seq<char>) -> bool,
    from: int,
    w: Seq<(int, int)>,
) -> bool {
    &&& forall|k: int|
        0 <= k < w.len() ==> is_run(s, kind, #[trigger] w[k]) && from <= w[k].0 && wanted(
            s.subrange(w[k].0, w[k].1),
        )
    &&& forall|j: int, k: int| 0 <= j < k < w.len() ==> (#[trigger] w[j]).1 < (#[trigger] w[k]).0
    &&& forall|r: (int, int)| #[trigger]
        is_run(s, kind, r) && from <= r.0 && wanted(s.subrange(r.0, r.1)) ==> w.contains(r)
}

/// What a run that may be wanted adds to the list of those behind it.
pub proof fn lemma_runs_front(
    s: Seq<char>,
    kind: spec_fn(char) -> bool,
    wanted: spec_fn(Seq<char>) -> bool,
    start: int,
    end: int,
    rest: Seq<(int, int)>,
) -> (w: Seq<(int, int)>)
    requires
        0 <= start <= end <= s.len(),
        start == 0 || !kind(s[start - 1]),
        forall|k: int| start <= k < end ==> kind(#[trigger] s[k]),
        end < s.len() ==> !kind(s[end]),
        lists_runs(s, kind, wanted, end + 1, rest),
    ensures
        lists_runs(s, kind, wanted, start, w),
        w == (if start < end && wanted(s.subrange(start, end)) {
            seq![(start, end)] + rest
        } else {
            rest
        }),
{
    let w = if start < end && wanted(s.subrange(start, end)) {
        seq![(start, end)] + rest
    } else {
        rest
    };
    let first = (start, end);
    assert forall|r: (int, int)| #[trigger] is_run(s, kind, r) && start <= r.0 && wanted(
        s.subrange(r.0, r.1),
    ) implies w.contains(r) by {
        if r.0 > end {
            assert(rest.contains(r));
            let k = choose|k: int| 0 <= k < rest.len() && rest[k] == r;
            if start < end && wanted(s.subrange(start, end)) {
                assert(w[k + 1] == r);
            } else {
                assert(w[k] == r);
            }
        } else {
            assert(kind(s[r.0]));
            assert(r.0 < end);
            assert(r.0 == start) by {
                if r.0 > start {
                    assert(kind(s[r.0 - 1]));
                }
            }
            assert(r.1 == end) by {
                if r.1 < end {
                    assert(kind(s[r.1]));
                } else if r.1 > end {
                    assert(kind(s[end]));
                }
            }
            assert(w[0] == r);
        }
    }
    assert forall|k: int| 0 <= k < w.len() implies is_run(s, kind, #[trigger] w[k]) && start
        <= w[k].0 && wanted(s.subrange(w[k].0, w[k].1)) by {
        if start < end && wanted(s.subrange(start, end)) {
            if k > 0 {
                assert(w[k] == rest[k - 1]);
            } else {
                assert(is_run(s, kind, first));
            }
        }
    }
    assert forall|j: int, k: int| 0 <= j < k < w.len() implies (#[trigger] w[j]).1 < (
    #[trigger] w[k]).0 by {
        if start < end && wanted(s.subrange(start, end)) {
            assert(w[k] == rest[k - 1]);
            if j > 0 {
                assert(w[j] == rest[j - 1]);
            }
        }
    }
    w
}

/// Beyond the end of a text there are no runs.
pub proof fn lemma_runs_end(
    s: Seq<char>,
    kind: spec_fn(char) -> bool,
    wanted: spec_fn(Seq<char>) -> bool,
    from: int,
)
    requires
        from >= s.len(),
    ensures
        lists_runs(s, kind, wanted, from, Seq::empty()),
{
}

/// Characters that are no white space.
pub open spec fn no_white() -> spec_fn(char) -> bool {
    |c: char| !is_white(c)
}

/// Runs of whatever characters.
pub open spec fn any_run() -> spec_fn(Seq<char>) -> bool {
    |run: Seq<char>| true
}

proof fn lemma_words(s: Seq<char>, start: int, i: int) -> (w: Seq<(int, int)>)
    requires
        0 <= start <= i <= s.len(),
        start == 0 || is_white(s[start - 1]),
        forall|k: int| start <= k < i ==> !is_white(#[trigger] s[k]),
    ensures
        lists_runs(s, no_white(), any_run(), start, w),
        words_from(s, start, i) == w.map_values(|r: (int, int)| s.subrange(r.0, r.1)),
    decreases s.len() - i,
{
    let kind = no_white();
    let wanted = any_run();
    let f = |r: (int, int)| s.subrange(r.0, r.1);
    if i >= s.len() {
        let rest: Seq<(int, int)> = Seq::empty();
        lemma_runs_end(s, kind, wanted, i + 1);
        let w = lemma_runs_front(s, kind, wanted, start, i, rest);
        assert(words_from(s, start, i) =~= w.map_values(f));
        w
    } else if is_white(s[i]) {
        let rest = lemma_words(s, i + 1, i + 1);
        let w = lemma_runs_front(s, kind, wanted, start, i, rest);
        assert(words_from(s, start, i) =~= w.map_values(f));
        w
    } else {
        lemma_words(s, start, i + 1)
    }
}

/// The words of a text are its whole runs of characters that are no white space, in order.
pub proof fn law_words(s: Seq<char>)
    ensures
        exists|w: Seq<(int, int)>|
            #[trigger] lists_runs(s, no_white(), any_run(), 0, w)
                && words(s) == w.map_values(|r: (int, int)| s.subrange(r.0, r.1)),
{
    let w = lemma_words(s, 0, 0);
    assert(lists_runs(s, no_white(), any_run(), 0, w));
}

/// The decimal text of a number has digits only, begins with a zero only where it is zero, and
/// writes the number. So different numbers have different texts.
pub proof fn law_decimal(n: nat)
    ensures
        decimal(n).len() > 0,
        forall|i: int| 0 <= i < decimal(n).len() ==> '0' <= #[trigger] decimal(n)[i] <= '9',
        decimal(n)[0] == '0' ==> n == 0 && decimal(n).len() == 1,
        digits_value(decimal(n)) == n,
        forall|m: nat| #[trigger] decimal(m) == decimal(n) ==> m == n,
    decreases n,
{
    lemma_decimal(n);
    assert forall|m: nat| #[trigger] decimal(m) == decimal(n) implies m == n by {
        lemma_decimal(m);
    }
}

proof fn lemma_decimal(n: nat)
    ensures
        decimal(n).len() > 0,
        forall|i: int| 0 <= i < decimal(n).len() ==> '0' <= #[trigger] decimal(n)[i] <= '9',
        decimal(n)[0] == '0' ==> n == 0 && decimal(n).len() == 1,
        digits_value(decimal(n)) == n,
    decreases n,
{
    let d = decimal(n);
    if n < 10 {
        assert(d.drop_last() =~= Seq::<char>::empty());
        assert(digits_value(d.drop_last()) == 0);
        assert(d.last() as u32 == '0' as u32 + n);
    } else {
        lemma_decimal(n / 10);
        assert(d.drop_last() =~= decimal(n / 10));
        assert(d.last() as u32 == '0' as u32 + n % 10);
        assert(d[0] == decimal(n / 10)[0]);
    }
}

/// The value of digits is read place by place: with one more digit behind them, they count ten
/// times as much.
pub proof fn law_digits_value(s: Seq<char>, c: char)
    requires
        '0' <= c <= '9',
    ensures
        digits_value(s.push(c)) == 10 * digits_value(s) + (c as u32 - '0' as u32),
        digits_value(Seq::<char>::empty()) == 0,
{
    assert(s.push(c).drop_last() =~= s);
}

/// A text is read as a number exactly where it has digits only, behind at most one plus sign, and
/// at least one digit; its decimal text reads back.
pub proof fn law_unsigned_number(s: Seq<char>, n: nat)
    ensures
        unsigned_number(s) is Some <==> {
            ||| s.len() > 0 && forall|i: int| 0 <= i < s.len() ==> '0' <= #[trigger] s[i] <= '9'
            ||| s.len() > 1 && s[0] == '+' && forall|i: int|
                1 <= i < s.len() ==> '0' <= #[trigger] s[i] <= '9'
        },
        unsigned_number(decimal(n)) == Some(n),
        unsigned_number(seq!['+'] + decimal(n)) == Some(n),
{
    let d = without_plus(s);
    if s.len() > 0 && s[0] == '+' {
        assert(forall|i: int| 0 <= i < d.len() ==> #[trigger] d[i] == s[i + 1]);
        if s.len() > 1 && forall|i: int| 1 <= i < s.len() ==> '0' <= #[trigger] s[i] <= '9' {
            assert forall|i: int| 0 <= i < d.len() implies is_digit(#[trigger] d[i]) by {
                assert('0' <= s[i + 1] <= '9');
            }
        }
        if unsigned_number(s) is Some {
            assert forall|i: int| 1 <= i < s.len() implies '0' <= #[trigger] s[i] <= '9' by {
                assert(is_digit(d[i - 1]));
            }
        }
    } else {
        if unsigned_number(s) is Some {
            assert forall|i: int| 0 <= i < s.len() implies '0' <= #[trigger] s[i] <= '9' by {
                assert(is_digit(d[i]));
            }
        }
    }
    lemma_decimal(n);
    let t = decimal(n);
    assert('0' <= t[0] <= '9');
    assert(without_plus(t) == t);
    assert forall|i: int| 0 <= i < t.len() implies is_digit(#[trigger] t[i]) by {
        assert('0' <= decimal(n)[i] <= '9');
    }
    assert((seq!['+'] + t).skip(1) =~= t);
}

/// White space is the tabulator, the line ends, the space, and the other characters that Unicode
/// counts as such.
pub proof fn law_white_space(c: char)
    ensures
        is_white(c) <==> {
            ||| c == '\t' || c == '\n' || c == '\u{b}' || c == '\u{c}' || c == '\r' || c == ' '
            ||| c == '\u{85}' || c == '\u{a0}' || c == '\u{1680}'
            ||| '\u{2000}' <= c <= '\u{200a}'
            ||| c == '\u{2028}' || c == '\u{2029}' || c == '\u{202f}' || c == '\u{205f}'
            ||| c == '\u{3000}'
        },
{
}

/// A trimmed text is the text between the first and the last character that is no white space;
/// it is empty where there is none.
pub proof fn law_trimmed(s: Seq<char>)
    ensures
        ({
            let t = trimmed(s);
            &&& t.len() > 0 ==> !is_white(t[0]) && !is_white(t.last())
            &&& exists|a: int, b: int|
                0 <= a <= b <= s.len() && t == #[trigger] s.subrange(a, b) && (forall|i: int|
                    0 <= i < a ==> is_white(#[trigger] s[i])) && (forall|i: int|
                    b <= i < s.len() ==> is_white(#[trigger] s[i]))
        }),
{
    let a = white_end(s, 0);
    let b = white_start(s, s.len() as int);
    lemma_white_end(s, 0);
    lemma_white_start(s, s.len() as int);
    if blank(s) || b <= a {
        assert(trimmed(s) =~= s.subrange(0, 0) || trimmed(s) =~= s.subrange(a, a) || trimmed(s)
            =~= s.subrange(a, b));
    } else {
        assert(trimmed(s) =~= s.subrange(a, b));
    }
}

/// A text that is not longer than allowed is shown whole. Of another its beginning is shown, of
/// as many bytes as asked, and three dots.
pub proof fn law_preview(s: Seq<char>, limit: nat, keep: nat)
    requires
        previewable(s, limit, keep),
    ensures
        bytes(s) <= limit ==> previewed(s, limit, keep) == s,
        bytes(s) > limit ==> ({
            let r = previewed(s, limit, keep);
            &&& 3 <= r.len() <= s.len() + 3
            &&& r.take(r.len() - 3) == s.take(r.len() - 3)
            &&& bytes(s.take(r.len() - 3)) == keep
            &&& r.skip(r.len() - 3) == seq!['.', '.', '.']
        }),
{
    if bytes(s) > limit {
        reveal_strlit("...");
        let r = previewed(s, limit, keep);
        let k = choose|k: int| 0 <= k <= s.len() && bytes(#[trigger] s.take(k)) == keep;
        assert(first_bytes(s, keep) == s.take(k));
        assert(r.take(r.len() - 3) =~= s.take(k));
        assert(r.skip(r.len() - 3) =~= seq!['.', '.', '.']);
    }
}

} // verus!
