//! Text helpers: moving between strings, characters and UTF-8 bytes, and the
//! lower-case hexadecimal form of byte strings.

use vstd::prelude::*;
use vstd::utf8::*;
use vstd::std_specs::iter::IteratorSpec;

verus! {

broadcast use vstd::string::group_string_axioms;

/// `String::push` from std: appends one character.
#[verifier::external_body]
pub(crate) fn push_char(s: &mut String, c: char)
    ensures
        final(s)@ == old(s)@.push(c),
{
    s.push(c)
}

/// `String::from_utf8` from std: succeeds exactly on valid UTF-8, and then holds
/// the characters the bytes encode.
#[verifier::external_body]
pub(crate) fn string_from_utf8(bytes: Vec<u8>) -> (r: Option<String>)
    ensures
        r is Some <==> valid_utf8(bytes@),
        r matches Some(s) ==> s@ == decode_utf8(bytes@),
{
    String::from_utf8(bytes).ok()
}

/// What `String::from_utf8_lossy` makes of `bytes`.
pub uninterp spec fn utf8_lossy(bytes: Seq<u8>) -> Seq<char>;

/// `String::from_utf8_lossy` from std: on valid UTF-8 it holds the characters
/// the bytes encode (invalid sequences become U+FFFD, which is not stated here).
#[verifier::external_body]
pub(crate) fn string_from_utf8_lossy(bytes: &[u8]) -> (r: String)
    ensures
        r@ == utf8_lossy(bytes@),
        valid_utf8(bytes@) ==> r@ == decode_utf8(bytes@),
{
    String::from_utf8_lossy(bytes).into_owned()
}

/// The text `String::from_utf8_lossy` gives for `bytes`: on valid UTF-8 the
/// characters they encode.
pub open spec fn lossy_text(bytes: Seq<u8>) -> Seq<char> {
    if valid_utf8(bytes) {
        decode_utf8(bytes)
    } else {
        utf8_lossy(bytes)
    }
}

/// The UTF-8 encoding of characters other than NUL holds no zero byte.
pub proof fn lemma_utf8_no_zero(s: Seq<char>)
    requires
        forall|i: int| 0 <= i < s.len() ==> s[i] != '\0',
    ensures
        forall|i: int| 0 <= i < encode_utf8(s).len() ==> encode_utf8(s)[i] != 0,
    decreases s.len(),
{
    if s.len() > 0 {
        let c = s[0];
        let u = c as u32;
        assert(u != 0) by {
            if u == 0 {
                vstd::utf8::char_u32_cast(c, u);
                vstd::utf8::char_u32_cast('\0', '\0' as u32);
                assert(('\0' as u32) == 0);
            }
        }
        assert(u != 0 && u <= 0x7F ==> (u & 0x7F) as u8 != 0) by (bit_vector);
        assert(forall|v: u32| #![auto] (0xC0 | ((v >> 6) & 0x1F) as u8) != 0) by (bit_vector);
        assert(forall|v: u32| #![auto] (0xE0 | ((v >> 12) & 0x0F) as u8) != 0) by (bit_vector);
        assert(forall|v: u32| #![auto] (0xF0 | ((v >> 18) & 0x7) as u8) != 0) by (bit_vector);
        assert(forall|v: u32| #![auto] (0x80 | (v & 0x3F) as u8) != 0) by (bit_vector);
        assert(forall|v: u32| #![auto] (0x80 | ((v >> 6) & 0x3F) as u8) != 0) by (bit_vector);
        assert(forall|v: u32| #![auto] (0x80 | ((v >> 12) & 0x3F) as u8) != 0) by (bit_vector);
        let head = encode_scalar(u);
        assert(forall|i: int| 0 <= i < head.len() ==> head[i] != 0);
        lemma_utf8_no_zero(s.drop_first());
        let rest = encode_utf8(s.drop_first());
        assert(encode_utf8(s) == head + rest);
        assert forall|i: int| 0 <= i < encode_utf8(s).len() implies encode_utf8(s)[i] != 0 by {
            if i < head.len() {
                assert(encode_utf8(s)[i] == head[i]);
            } else {
                assert(encode_utf8(s)[i] == rest[i - head.len()]);
            }
        }
    }
}

/// The characters of `s`.
pub fn str_chars(s: &str) -> (v: Vec<char>)
    ensures
        v@ == s@,
{
    let mut v: Vec<char> = Vec::new();
    let mut it = s.chars();
    let ghost all = it.remaining();
    loop
        invariant
            all == s@,
            v@ + it.remaining() == all,
            it.obeys_prophetic_iter_laws(),
            it.decrease() is Some,
        decreases s@.len() - v@.len(),
    {
        match it.next() {
            Some(c) => {
                v.push(c);
                assert(v@ + it.remaining() =~= all);
            },
            None => {
                assert(v@ =~= all);
                return v;
            },
        }
    }
}

/// A string holding the characters `cs`.
pub fn string_from_chars(cs: &[char]) -> (s: String)
    ensures
        s@ == cs@,
{
    let mut s = String::new();
    let mut i: usize = 0;
    while i < cs.len()
        invariant
            i <= cs@.len(),
            s@ == cs@.subrange(0, i as int),
        decreases cs@.len() - i,
    {
        push_char(&mut s, cs[i]);
        assert(cs@.subrange(0, i + 1) =~= cs@.subrange(0, i as int).push(cs@[i as int]));
        i = i + 1;
    }
    assert(cs@.subrange(0, cs@.len() as int) =~= cs@);
    s
}

/// Appends the characters of `t` to `s`.
pub fn push_str(s: &mut String, t: &str)
    ensures
        final(s)@ == old(s)@ + t@,
{
    let cs = str_chars(t);
    let mut i: usize = 0;
    while i < cs.len()
        invariant
            i <= cs@.len(),
            cs@ == t@,
            s@ == old(s)@ + cs@.subrange(0, i as int),
        decreases cs@.len() - i,
    {
        push_char(s, cs[i]);
        assert(cs@.subrange(0, i + 1) =~= cs@.subrange(0, i as int).push(cs@[i as int]));
        i = i + 1;
    }
    assert(cs@.subrange(0, cs@.len() as int) =~= cs@);
}

/// The UTF-8 bytes of `s`.
pub fn str_bytes(s: &str) -> (b: Vec<u8>)
    ensures
        b@ == encode_utf8(s@),
{
    let bs = s.as_bytes();
    let mut out: Vec<u8> = Vec::new();
    let mut i: usize = 0;
    while i < bs.len()
        invariant
            i <= bs@.len(),
            bs@ == encode_utf8(s@),
            out@ == bs@.subrange(0, i as int),
        decreases bs@.len() - i,
    {
        out.push(bs[i]);
        assert(bs@.subrange(0, i + 1) =~= bs@.subrange(0, i as int).push(bs@[i as int]));
        i = i + 1;
    }
    assert(bs@.subrange(0, bs@.len() as int) =~= bs@);
    out
}

/// Whether two strings hold the same characters.
pub fn str_eq(a: &str, b: &str) -> (r: bool)
    ensures
        r == (a@ == b@),
{
    broadcast use vstd::utf8::group_utf8_lib;

    let x = a.as_bytes();
    let y = b.as_bytes();
    if x.len() != y.len() {
        return false;
    }
    let mut i: usize = 0;
    while i < x.len()
        invariant
            x@.len() == y@.len(),
            i <= x@.len(),
            x@ == encode_utf8(a@),
            y@ == encode_utf8(b@),
            forall|j: int| 0 <= j < i ==> x@[j] == y@[j],
        decreases x@.len() - i,
    {
        if x[i] != y[i] {
            return false;
        }
        i = i + 1;
    }
    assert(x@ =~= y@);
    assert(decode_utf8(encode_utf8(a@)) == a@);
    true
}

/// The lower-case hexadecimal digit for `n < 16`.
pub open spec fn hex_digit(n: u8) -> char {
    if n < 10 {
        (n + 48) as char
    } else {
        (n + 87) as char
    }
}

/// The lower-case hexadecimal form of `bytes`: two digits per byte, high half first.
pub open spec fn spec_hex(bytes: Seq<u8>) -> Seq<char>
    decreases bytes.len(),
{
    if bytes.len() == 0 {
        Seq::empty()
    } else {
        spec_hex(bytes.drop_last()) + seq![hex_digit(bytes.last() / 16), hex_digit(bytes.last() % 16)]
    }
}

/// Hexadecimal takes two digits per byte.
pub proof fn lemma_hex_len(bytes: Seq<u8>)
    ensures
        spec_hex(bytes).len() == 2 * bytes.len(),
    decreases bytes.len(),
{
    if bytes.len() > 0 {
        lemma_hex_len(bytes.drop_last());
    }
}

fn hex_digit_exec(n: u8) -> (c: char)
    requires
        n < 16,
    ensures
        c == hex_digit(n),
{
    if n < 10 {
        (n + 48) as char
    } else {
        (n + 87) as char
    }
}

/// The lower-case hexadecimal form of `bytes`.
pub fn to_hex(bytes: &[u8]) -> (s: String)
    ensures
        s@ == spec_hex(bytes@),
{
    let mut s = String::new();
    let mut i: usize = 0;
    while i < bytes.len()
        invariant
            i <= bytes@.len(),
            s@ == spec_hex(bytes@.subrange(0, i as int)),
        decreases bytes@.len() - i,
    {
        let b: u8 = bytes[i];
        push_char(&mut s, hex_digit_exec(b / 16));
        push_char(&mut s, hex_digit_exec(b % 16));
        assert(bytes@.subrange(0, i + 1).drop_last() =~= bytes@.subrange(0, i as int));
        i = i + 1;
    }
    assert(bytes@.subrange(0, bytes@.len() as int) =~= bytes@);
    s
}


/// Whether `c` is white space as `char::is_whitespace` decides it: the
/// characters with the Unicode `White_Space` property.
pub open spec fn is_white(c: char) -> bool {
    ('\t' <= c && c <= '\r') || c == ' ' || c == '\u{85}' || c == '\u{a0}' || c == '\u{1680}' || (
    '\u{2000}' <= c && c <= '\u{200a}') || c == '\u{2028}' || c == '\u{2029}' || c == '\u{202f}'
        || c == '\u{205f}' || c == '\u{3000}'
}

/// `s` without its leading white space.
pub open spec fn trim_start(s: Seq<char>) -> Seq<char>
    decreases s.len(),
{
    if s.len() > 0 && is_white(s[0]) {
        trim_start(s.drop_first())
    } else {
        s
    }
}

/// `s` without its trailing white space.
pub open spec fn trim_end(s: Seq<char>) -> Seq<char>
    decreases s.len(),
{
    if s.len() > 0 && is_white(s.last()) {
        trim_end(s.drop_last())
    } else {
        s
    }
}

/// `s` without leading and trailing white space, as `str::trim` gives it.
pub open spec fn trimmed(s: Seq<char>) -> Seq<char> {
    trim_end(trim_start(s))
}

/// Whether `c` is white space.
pub fn is_white_char(c: char) -> (b: bool)
    ensures
        b == is_white(c),
{
    ('\t' <= c && c <= '\r') || c == ' ' || c == '\u{85}' || c == '\u{a0}' || c == '\u{1680}' || (
    '\u{2000}' <= c && c <= '\u{200a}') || c == '\u{2028}' || c == '\u{2029}' || c == '\u{202f}'
        || c == '\u{205f}' || c == '\u{3000}'
}

/// The characters `cs` without leading and trailing white space.
pub fn trim_chars(cs: &Vec<char>) -> (r: Vec<char>)
    ensures
        r@ == trimmed(cs@),
{
    let n = cs.len();
    let mut a: usize = 0;
    assert(cs@.subrange(0, n as int) =~= cs@);
    while a < n && is_white_char(cs[a])
        invariant
            a <= n,
            n == cs@.len(),
            trim_start(cs@.subrange(a as int, n as int)) == trim_start(cs@),
        decreases n - a,
    {
        assert(cs@.subrange(a as int, n as int).drop_first() =~= cs@.subrange(a + 1, n as int));
        a = a + 1;
    }
    let mut b: usize = n;
    while b > a && is_white_char(cs[b - 1])
        invariant
            a <= b <= n,
            n == cs@.len(),
            trim_end(cs@.subrange(a as int, b as int)) == trim_end(cs@.subrange(a as int, n as int)),
        decreases b,
    {
        assert(cs@.subrange(a as int, b as int).drop_last() =~= cs@.subrange(a as int, b - 1));
        b = b - 1;
    }
    let mut r: Vec<char> = Vec::new();
    let mut i: usize = a;
    while i < b
        invariant
            a <= i <= b <= n,
            n == cs@.len(),
            r@ == cs@.subrange(a as int, i as int),
        decreases b - i,
    {
        r.push(cs[i]);
        assert(cs@.subrange(a as int, i + 1) =~= cs@.subrange(a as int, i as int).push(cs@[i as int]));
        i = i + 1;
    }
    proof {
        let rest = cs@.subrange(a as int, n as int);
        assert(trim_start(cs@) == rest);
        assert(trim_end(cs@.subrange(a as int, b as int)) == cs@.subrange(a as int, b as int));
    }
    r
}

/// `s` without leading and trailing white space, as `str::trim` gives it.
pub fn trim_str(s: &str) -> (r: String)
    ensures
        r@ == trimmed(s@),
{
    let cs = str_chars(s);
    let t = trim_chars(&cs);
    string_from_chars(t.as_slice())
}

/// Whether `s` has no white space at either end.
pub open spec fn is_trimmed(s: Seq<char>) -> bool {
    s.len() > 0 ==> !is_white(s[0]) && !is_white(s.last())
}

/// Text without white space at its ends is its own trimmed form, and so it is
/// once a line feed is put after it.
pub proof fn lemma_trimmed_unchanged(s: Seq<char>)
    requires
        is_trimmed(s),
    ensures
        trimmed(s) == s,
        s.len() > 0 ==> trimmed(s + seq!['\n']) == s,
{
    if s.len() > 0 {
        let t = s + seq!['\n'];
        assert(t[0] == s[0]);
        assert(trim_start(t) == t);
        assert(t.drop_last() =~= s);
        assert(is_white(t.last()));
    }
}

/// Whether `s` starts with `p`.
pub open spec fn has_prefix(s: Seq<char>, p: Seq<char>) -> bool {
    p.len() <= s.len() && s.subrange(0, p.len() as int) == p
}

/// `s` after the prefix `p`, where it starts with it.
pub fn strip_prefix_chars(s: &Vec<char>, p: &str) -> (r: Option<Vec<char>>)
    ensures
        r is Some <==> has_prefix(s@, p@),
        r matches Some(t) ==> t@ == s@.subrange(p@.len() as int, s@.len() as int),
{
    let pc = str_chars(p);
    if pc.len() > s.len() {
        return None;
    }
    let mut i: usize = 0;
    while i < pc.len()
        invariant
            i <= pc@.len() <= s@.len(),
            pc@ == p@,
            forall|t: int| 0 <= t < i ==> s@[t] == pc@[t],
        decreases pc@.len() - i,
    {
        if s[i] != pc[i] {
            assert(s@.subrange(0, pc@.len() as int)[i as int] != p@[i as int]);
            return None;
        }
        i = i + 1;
    }
    assert(s@.subrange(0, pc@.len() as int) =~= p@);
    let mut r: Vec<char> = Vec::new();
    let mut j: usize = pc.len();
    while j < s.len()
        invariant
            pc@.len() <= j <= s@.len(),
            r@ == s@.subrange(pc@.len() as int, j as int),
        decreases s@.len() - j,
    {
        r.push(s[j]);
        assert(s@.subrange(pc@.len() as int, j + 1) =~= s@.subrange(pc@.len() as int, j as int).push(
            s@[j as int],
        ));
        j = j + 1;
    }
    Some(r)
}


/// `s` split at byte `k`, as `(&s[..k], &s[k..])` splits it; `k` must fall on
/// a character boundary.
pub fn split_at_byte(s: &str, k: usize) -> (r: (String, String))
    requires
        k <= encode_utf8(s@).len(),
        is_char_boundary(encode_utf8(s@), k as int),
    ensures
        r.0@ == decode_utf8(encode_utf8(s@).subrange(0, k as int)),
        r.1@ == decode_utf8(encode_utf8(s@).subrange(k as int, encode_utf8(s@).len() as int)),
        r.0@ + r.1@ == s@,
{
    let bytes = str_bytes(s);
    let ghost b = bytes@;
    proof {
        encode_utf8_valid_utf8(s@);
        encode_utf8_decode_utf8(s@);
        valid_utf8_split(b, k as int);
        decode_utf8_split(b, k as int);
    }
    let mut head: Vec<u8> = Vec::new();
    let mut tail: Vec<u8> = Vec::new();
    let mut i: usize = 0;
    while i < bytes.len()
        invariant
            i <= b.len(),
            k <= b.len(),
            bytes@ == b,
            i <= k ==> head@ == b.subrange(0, i as int) && tail@ == Seq::<u8>::empty(),
            i > k ==> head@ == b.subrange(0, k as int) && tail@ == b.subrange(k as int, i as int),
        decreases b.len() - i,
    {
        if i < k {
            head.push(bytes[i]);
            assert(b.subrange(0, i + 1) =~= b.subrange(0, i as int).push(b[i as int]));
        } else {
            tail.push(bytes[i]);
            assert(b.subrange(k as int, i + 1) =~= b.subrange(k as int, i as int).push(b[i as int]));
        }
        i = i + 1;
    }
    proof {
        if b.len() <= k {
            assert(tail@ =~= b.subrange(k as int, b.len() as int));
        }
    }
    let a = match string_from_utf8(head) {
        Some(x) => x,
        None => String::new(),
    };
    let c = match string_from_utf8(tail) {
        Some(x) => x,
        None => String::new(),
    };
    (a, c)
}


/// Every byte offset into the encoding of ASCII text is a character boundary.
pub proof fn lemma_ascii_char_boundary(s: Seq<char>, k: int)
    requires
        is_ascii_chars(s),
        0 <= k <= s.len(),
    ensures
        encode_utf8(s).len() == s.len(),
        is_char_boundary(encode_utf8(s), k),
    decreases k,
{
    is_ascii_chars_encode_utf8(s);
    encode_utf8_valid_utf8(s);
    if k > 0 {
        let b = encode_utf8(s);
        let rest = s.drop_first();
        assert(is_ascii_chars(rest)) by {
            assert forall|i: int| 0 <= i < rest.len() implies '\0' <= #[trigger] rest[i] <= '\u{7f}' by {
                assert(rest[i] == s[i + 1]);
            }
        }
        lemma_ascii_char_boundary(rest, k - 1);
        is_ascii_chars_encode_utf8(rest);
        assert(b[0] == s[0] as u8);
        assert(is_leading_byte_width_1(b[0]));
        assert(length_of_first_scalar(b) == 1);
        assert(b == encode_scalar(s[0] as u32) + encode_utf8(rest));
        assert(pop_first_scalar(b) =~= encode_utf8(rest));
    }
}

/// Hexadecimal digits are ASCII.
pub proof fn lemma_hex_ascii(bytes: Seq<u8>)
    ensures
        is_ascii_chars(spec_hex(bytes)),
    decreases bytes.len(),
{
    if bytes.len() > 0 {
        lemma_hex_ascii(bytes.drop_last());
        let h = spec_hex(bytes);
        let prev = spec_hex(bytes.drop_last());
        let hi = bytes.last() / 16;
        let lo = bytes.last() % 16;
        assert(hex_digit(hi) as u32 <= 0x7f);
        assert(hex_digit(lo) as u32 <= 0x7f);
        assert forall|i: int| 0 <= i < h.len() implies '\0' <= #[trigger] h[i] <= '\u{7f}' by {
            if i < prev.len() {
                assert(h[i] == prev[i]);
            }
        }
    }
}


/// The value of a hexadecimal digit, either case.
pub open spec fn hex_value(c: char) -> Option<u8> {
    if '0' <= c && c <= '9' {
        Some((c as u32 - '0' as u32) as u8)
    } else if 'a' <= c && c <= 'f' {
        Some((c as u32 - 'a' as u32 + 10) as u8)
    } else if 'A' <= c && c <= 'F' {
        Some((c as u32 - 'A' as u32 + 10) as u8)
    } else {
        None
    }
}

/// Why hexadecimal text could not be decoded.
#[derive(Debug, PartialEq, Eq, Structural)]
pub enum HexError {
    /// A character at this index is not a hexadecimal digit.
    InvalidHexCharacter { c: char, index: usize },
    /// The text has an odd number of characters.
    OddLength,
}

/// The first character of `s` at or after `i` that is not a hexadecimal digit.
pub open spec fn first_non_hex(s: Seq<char>, i: int) -> Option<int>
    decreases s.len() - i,
{
    if i < 0 || i >= s.len() {
        None
    } else if hex_value(s[i]) is None {
        Some(i)
    } else {
        first_non_hex(s, i + 1)
    }
}

/// The bytes hexadecimal digit pairs stand for.
pub open spec fn hex_bytes(s: Seq<char>) -> Seq<u8> {
    Seq::new(
        s.len() / 2,
        |i: int| (hex_value(s[2 * i]).unwrap() * 16 + hex_value(s[2 * i + 1]).unwrap()) as u8,
    )
}

/// Decoding hexadecimal text as `hex::decode` does: an odd length fails
/// first; then the first character that is not a digit; otherwise each pair of
/// digits gives a byte, high digit first.
pub open spec fn hex_decode(s: Seq<char>) -> Result<Seq<u8>, HexError> {
    if s.len() % 2 != 0 {
        Err(HexError::OddLength)
    } else {
        match first_non_hex(s, 0) {
            Some(i) => Err(HexError::InvalidHexCharacter { c: s[i], index: i as usize }),
            None => Ok(hex_bytes(s)),
        }
    }
}

/// The value of `c` as a hexadecimal digit.
fn hex_value_exec(c: char) -> (r: Option<u8>)
    ensures
        r == hex_value(c),
{
    if '0' <= c && c <= '9' {
        Some((c as u32 - '0' as u32) as u8)
    } else if 'a' <= c && c <= 'f' {
        Some((c as u32 - 'a' as u32 + 10) as u8)
    } else if 'A' <= c && c <= 'F' {
        Some((c as u32 - 'A' as u32 + 10) as u8)
    } else {
        None
    }
}

proof fn lemma_first_non_hex_none(s: Seq<char>, i: int)
    requires
        0 <= i,
        forall|t: int| i <= t < s.len() ==> hex_value(s[t]) is Some,
    ensures
        first_non_hex(s, i) is None,
    decreases s.len() - i,
{
    if i < s.len() {
        lemma_first_non_hex_none(s, i + 1);
    }
}

proof fn lemma_first_non_hex_at(s: Seq<char>, i: int, k: int)
    requires
        0 <= i <= k < s.len(),
        hex_value(s[k]) is None,
        forall|t: int| i <= t < k ==> hex_value(s[t]) is Some,
    ensures
        first_non_hex(s, i) == Some(k),
    decreases k - i,
{
    if i < k {
        lemma_first_non_hex_at(s, i + 1, k);
    }
}

/// A hexadecimal digit reads back as its value.
proof fn lemma_hex_digit_value(n: u8)
    requires
        n < 16,
    ensures
        hex_value(hex_digit(n)) == Some(n),
{
    broadcast use vstd::utf8::char_u32_cast;

    if n < 10 {
        let c = (n + 48) as char;
        assert(c as u32 == n + 48);
    } else {
        let c = (n + 87) as char;
        assert(c as u32 == n + 87);
    }
}

/// The two digits of each byte in the hexadecimal form.
proof fn lemma_hex_at(bytes: Seq<u8>, k: int)
    requires
        0 <= k < bytes.len(),
    ensures
        spec_hex(bytes).len() == 2 * bytes.len(),
        spec_hex(bytes)[2 * k] == hex_digit(bytes[k] / 16),
        spec_hex(bytes)[2 * k + 1] == hex_digit(bytes[k] % 16),
    decreases bytes.len(),
{
    lemma_hex_len(bytes);
    let prev = bytes.drop_last();
    lemma_hex_len(prev);
    if k < bytes.len() - 1 {
        lemma_hex_at(prev, k);
        assert(spec_hex(bytes)[2 * k] == spec_hex(prev)[2 * k]);
        assert(spec_hex(bytes)[2 * k + 1] == spec_hex(prev)[2 * k + 1]);
    }
}

/// Decoding the hexadecimal form of bytes gives the bytes back.
pub proof fn lemma_hex_roundtrip(bytes: Seq<u8>)
    ensures
        hex_decode(spec_hex(bytes)) == Ok::<Seq<u8>, HexError>(bytes),
{
    let h = spec_hex(bytes);
    lemma_hex_len(bytes);
    assert forall|t: int| 0 <= t < h.len() implies hex_value(h[t]) is Some by {
        let k = t / 2;
        lemma_hex_at(bytes, k);
        lemma_hex_digit_value(bytes[k] / 16);
        lemma_hex_digit_value(bytes[k] % 16);
        if t % 2 == 0 {
            assert(t == 2 * k);
        } else {
            assert(t == 2 * k + 1);
        }
    }
    lemma_first_non_hex_none(h, 0);
    assert forall|k: int| 0 <= k < bytes.len() implies #[trigger] hex_bytes(h)[k] == bytes[k] by {
        lemma_hex_at(bytes, k);
        lemma_hex_digit_value(bytes[k] / 16);
        lemma_hex_digit_value(bytes[k] % 16);
        assert((bytes[k] / 16) * 16 + bytes[k] % 16 == bytes[k]);
    }
    assert(hex_bytes(h) =~= bytes);
}

/// Decodes hexadecimal text, as `hex::decode` does.
pub fn decode_hex(s: &str) -> (r: Result<Vec<u8>, HexError>)
    ensures
        match hex_decode(s@) {
            Ok(b) => r matches Ok(v) && v@ == b,
            Err(e) => r == Err::<Vec<u8>, HexError>(e),
        },
{
    let cs = str_chars(s);
    let n = cs.len();
    if n % 2 != 0 {
        return Err(HexError::OddLength);
    }
    let mut i: usize = 0;
    while i < n
        invariant
            i <= n,
            n == cs@.len(),
            n % 2 == 0,
            cs@ == s@,
            forall|t: int| 0 <= t < i ==> hex_value(cs@[t]) is Some,
        decreases n - i,
    {
        if hex_value_exec(cs[i]).is_none() {
            proof {
                lemma_first_non_hex_at(cs@, 0, i as int);
                assert((i as int) as usize == i);
            }
            return Err(HexError::InvalidHexCharacter { c: cs[i], index: i });
        }
        i = i + 1;
    }
    proof {
        lemma_first_non_hex_none(cs@, 0);
    }
    let mut out: Vec<u8> = Vec::new();
    let mut j: usize = 0;
    while j < n / 2
        invariant
            j <= n / 2,
            n == cs@.len(),
            n % 2 == 0,
            forall|t: int| 0 <= t < n ==> hex_value(cs@[t]) is Some,
            out@ == hex_bytes(cs@).subrange(0, j as int),
        decreases n / 2 - j,
    {
        let hi = hex_value_exec(cs[2 * j]).unwrap();
        let lo = hex_value_exec(cs[2 * j + 1]).unwrap();
        assert(hi < 16 && lo < 16);
        out.push(hi * 16 + lo);
        assert(hex_bytes(cs@).subrange(0, j + 1) =~= hex_bytes(cs@).subrange(0, j as int).push(
            hex_bytes(cs@)[j as int],
        ));
        j = j + 1;
    }
    assert(hex_bytes(cs@).subrange(0, (n / 2) as int) =~= hex_bytes(cs@));
    Ok(out)
}

/// Whether `a` comes strictly before `b` in the order of `str`: character by
/// character, by code point, a prefix before what it starts.
pub open spec fn text_less(a: Seq<char>, b: Seq<char>) -> bool
    decreases a.len(),
{
    if a.len() == 0 {
        b.len() > 0
    } else if b.len() == 0 {
        false
    } else if a[0] == b[0] {
        text_less(a.drop_first(), b.drop_first())
    } else {
        (a[0] as u32) < (b[0] as u32)
    }
}

/// The order of `str` is irreflexive.
pub proof fn lemma_text_less_irreflexive(a: Seq<char>)
    ensures
        !text_less(a, a),
    decreases a.len(),
{
    if a.len() > 0 {
        lemma_text_less_irreflexive(a.drop_first());
    }
}

/// The order of `str` is transitive.
pub proof fn lemma_text_less_transitive(a: Seq<char>, b: Seq<char>, c: Seq<char>)
    requires
        text_less(a, b),
        text_less(b, c),
    ensures
        text_less(a, c),
    decreases a.len(),
{
    broadcast use vstd::utf8::char_u32_cast;

    if a.len() > 0 && b.len() > 0 && c.len() > 0 {
        if a[0] == b[0] && b[0] == c[0] {
            lemma_text_less_transitive(a.drop_first(), b.drop_first(), c.drop_first());
        } else if a[0] == c[0] {
            let u = a[0] as u32;
            let w = b[0] as u32;
            assert(u as char == a[0]);
            assert(w as char == b[0]);
        }
    }
}

/// The order of `str` is asymmetric.
pub proof fn lemma_text_less_asymmetric(a: Seq<char>, b: Seq<char>)
    requires
        text_less(a, b),
    ensures
        !text_less(b, a),
{
    if text_less(b, a) {
        lemma_text_less_transitive(a, b, a);
        lemma_text_less_irreflexive(a);
    }
}

/// Whether `a` comes strictly before `b` in the order of `str`.
pub fn text_before(a: &str, b: &str) -> (r: bool)
    ensures
        r == text_less(a@, b@),
{
    let x = str_chars(a);
    let y = str_chars(b);
    let mut i: usize = 0;
    assert(x@.skip(0) =~= x@);
    assert(y@.skip(0) =~= y@);
    while i < x.len() && i < y.len()
        invariant
            x@ == a@,
            y@ == b@,
            i <= x@.len(),
            i <= y@.len(),
            text_less(a@, b@) == text_less(x@.skip(i as int), y@.skip(i as int)),
        decreases x@.len() - i,
    {
        let c: char = x[i];
        let d: char = y[i];
        assert(x@.skip(i as int).drop_first() =~= x@.skip(i + 1));
        assert(y@.skip(i as int).drop_first() =~= y@.skip(i + 1));
        if c != d {
            return (c as u32) < (d as u32);
        }
        i = i + 1;
    }
    x.len() < y.len()
}

} // verus!
