//! The standard text form: `OSM` + version digit + `.` + unpadded base64url of the payload.
use base64::engine::general_purpose::URL_SAFE_NO_PAD;
use base64::Engine;
use vstd::prelude::*;

use crate::encoding::detect::{detect_spec, is_standard_spec};
use crate::error::{FormatError, FormatErrorView};
use crate::payload::{
    bytes_of, law_bytes_roundtrip, parse_payload, readable, result_view, Payload, PayloadView,
};
use crate::text::{
    chars_of, chars_range, lemma_trim_fixed, string_from_chars, trim, trim_chars,
};

verus! {

/// The URL-safe base64 digit for a six-bit value: `A`-`Z`, `a`-`z`, `0`-`9`, `-`, `_`.
pub open spec fn base64_digit(v: int) -> char {
    if v < 26 {
        ((v + 65) as u8) as char
    } else if v < 52 {
        ((v - 26 + 97) as u8) as char
    } else if v < 62 {
        ((v - 52 + 48) as u8) as char
    } else if v == 62 {
        '-'
    } else {
        '_'
    }
}

/// Unpadded URL-safe base64: each three bytes become four digits, six bits each,
/// most significant first; a last group of one or two bytes becomes two or three
/// digits, its unused low bits zero.
pub open spec fn base64_url_encode(bs: Seq<u8>) -> Seq<char>
    decreases bs.len(),
{
    if bs.len() == 0 {
        seq![]
    } else if bs.len() == 1 {
        seq![base64_digit(bs[0] as int / 4), base64_digit((bs[0] as int % 4) * 16)]
    } else if bs.len() == 2 {
        seq![
            base64_digit(bs[0] as int / 4),
            base64_digit((bs[0] as int % 4) * 16 + bs[1] as int / 16),
            base64_digit((bs[1] as int % 16) * 4),
        ]
    } else {
        seq![
            base64_digit(bs[0] as int / 4),
            base64_digit((bs[0] as int % 4) * 16 + bs[1] as int / 16),
            base64_digit((bs[1] as int % 16) * 4 + bs[2] as int / 64),
            base64_digit(bs[2] as int % 64),
        ] + base64_url_encode(bs.skip(3))
    }
}

/// Decoding unpadded URL-safe base64 with trailing bits refused: the bytes whose
/// encoding the text is, and `None` where it is the encoding of none.
pub open spec fn base64_url_decode(text: Seq<char>) -> Option<Seq<u8>> {
    if exists|b: Seq<u8>| #[trigger] base64_url_encode(b) == text {
        Some(choose|b: Seq<u8>| #[trigger] base64_url_encode(b) == text)
    } else {
        None
    }
}

/// A character of the URL-safe base64 alphabet.
pub open spec fn is_base64_url_char(c: char) -> bool {
    ||| 'A' <= c <= 'Z'
    ||| 'a' <= c <= 'z'
    ||| '0' <= c <= '9'
    ||| c == '-'
    ||| c == '_'
}

/// Length of unpadded base64 text for `n` bytes.
pub open spec fn base64_len(n: int) -> int {
    4 * (n / 3) + if n % 3 == 0 {
        0int
    } else if n % 3 == 1 {
        2int
    } else {
        3int
    }
}

/// Unpadded URL-safe base64 (`Engine::encode` on `URL_SAFE_NO_PAD`). Claimed:
/// the text is `base64_url_encode` of the bytes.
#[verifier::external_body]
fn base64_encode(bytes: &[u8]) -> (r: String)
    requires
        base64_len(bytes@.len() as int) <= usize::MAX,
    ensures
        r@ == base64_url_encode(bytes@),
{
    URL_SAFE_NO_PAD.encode(bytes)
}

/// Unpadded URL-safe base64 decoding (`Engine::decode` on `URL_SAFE_NO_PAD`),
/// `None` on its error. Claimed: it succeeds exactly on the texts that
/// `base64_url_encode` makes, and gives back the bytes they were made of (the
/// engine refuses padding, characters outside the alphabet, a length of one
/// more than a multiple of four, and nonzero trailing bits).
#[verifier::external_body]
fn base64_decode(text: &[char]) -> (r: Option<Vec<u8>>)
    ensures
        r matches Some(v) ==> base64_url_encode(v@) == text@,
        forall|b: Seq<u8>| #[trigger] base64_url_encode(b) == text@ ==> r is Some && r->0@ == b,
{
    let s: String = text.iter().collect();
    URL_SAFE_NO_PAD.decode(s.as_bytes()).ok()
}

/// The base64 text of `bs` has `base64_len` digits, all from the URL-safe alphabet.
pub proof fn lemma_base64_url_encode(bs: Seq<u8>)
    ensures
        base64_url_encode(bs).len() == base64_len(bs.len() as int),
        forall|i: int|
            0 <= i < base64_url_encode(bs).len() ==> is_base64_url_char(
                #[trigger] base64_url_encode(bs)[i],
            ),
    decreases bs.len(),
{
    let e = base64_url_encode(bs);
    if bs.len() >= 3 {
        lemma_base64_url_encode(bs.skip(3));
        let head = seq![
            base64_digit(bs[0] as int / 4),
            base64_digit((bs[0] as int % 4) * 16 + bs[1] as int / 16),
            base64_digit((bs[1] as int % 16) * 4 + bs[2] as int / 64),
            base64_digit(bs[2] as int % 64),
        ];
        lemma_base64_digit(bs[0] as int / 4);
        lemma_base64_digit((bs[0] as int % 4) * 16 + bs[1] as int / 16);
        lemma_base64_digit((bs[1] as int % 16) * 4 + bs[2] as int / 64);
        lemma_base64_digit(bs[2] as int % 64);
        let tail = base64_url_encode(bs.skip(3));
        assert(e == head + tail);
        assert forall|i: int| 0 <= i < e.len() implies is_base64_url_char(#[trigger] e[i]) by {
            if i >= 4 {
                assert(e[i] == tail[i - 4]);
            }
        }
    } else if bs.len() == 2 {
        lemma_base64_digit(bs[0] as int / 4);
        lemma_base64_digit((bs[0] as int % 4) * 16 + bs[1] as int / 16);
        lemma_base64_digit((bs[1] as int % 16) * 4);
    } else if bs.len() == 1 {
        lemma_base64_digit(bs[0] as int / 4);
        lemma_base64_digit((bs[0] as int % 4) * 16);
    }
}

proof fn lemma_base64_digit_injective(v: int, w: int)
    requires
        0 <= v < 64,
        0 <= w < 64,
        base64_digit(v) == base64_digit(w),
    ensures
        v == w,
{
}

proof fn lemma_base64_len_injective(n: int, m: int)
    requires
        0 <= n,
        0 <= m,
        base64_len(n) == base64_len(m),
    ensures
        n == m,
{
}

proof fn lemma_sextets(x: int, y: int)
    requires
        0 <= x < 256,
        0 <= y < 256,
    ensures
        ((x % 4) * 16 + y / 16) / 16 == x % 4,
        ((x % 4) * 16 + y / 16) % 16 == y / 16,
        ((x % 16) * 4 + y / 64) / 4 == x % 16,
        ((x % 16) * 4 + y / 64) % 4 == y / 64,
        x == (x / 4) * 4 + x % 4,
        x == (x / 16) * 16 + x % 16,
        x == (x / 64) * 64 + x % 64,
        0 <= (x % 4) * 16 + y / 16 < 64,
        0 <= (x % 16) * 4 + y / 64 < 64,
        0 <= x / 4 < 64,
{
}

/// Different byte strings have different base64 texts.
proof fn lemma_base64_injective(a: Seq<u8>, b: Seq<u8>)
    requires
        base64_url_encode(a) == base64_url_encode(b),
    ensures
        a == b,
    decreases a.len(),
{
    lemma_base64_url_encode(a);
    lemma_base64_url_encode(b);
    lemma_base64_len_injective(a.len() as int, b.len() as int);
    let e = base64_url_encode(a);
    if a.len() == 0 {
        assert(a =~= b);
    } else {
        let a0 = a[0] as int;
        let b0 = b[0] as int;
        let f = base64_url_encode(b);
        lemma_sextets(a0, 0);
        lemma_sextets(b0, 0);
        if a.len() == 1 {
            assert(e[0] == base64_digit(a0 / 4) && f[0] == base64_digit(b0 / 4));
            assert(e[1] == base64_digit((a0 % 4) * 16) && f[1] == base64_digit((b0 % 4) * 16));
            lemma_base64_digit_injective(a0 / 4, b0 / 4);
            lemma_base64_digit_injective((a0 % 4) * 16, (b0 % 4) * 16);
            assert(a =~= b);
        } else {
            let a1 = a[1] as int;
            let b1 = b[1] as int;
            lemma_sextets(a0, a1);
            lemma_sextets(b0, b1);
            lemma_sextets(a1, 0);
            lemma_sextets(b1, 0);
            if a.len() == 2 {
                assert(e[0] == base64_digit(a0 / 4) && f[0] == base64_digit(b0 / 4));
                assert(e[1] == base64_digit((a0 % 4) * 16 + a1 / 16) && f[1] == base64_digit(
                    (b0 % 4) * 16 + b1 / 16,
                ));
                assert(e[2] == base64_digit((a1 % 16) * 4) && f[2] == base64_digit((b1 % 16) * 4));
                lemma_base64_digit_injective(a0 / 4, b0 / 4);
                lemma_base64_digit_injective((a0 % 4) * 16 + a1 / 16, (b0 % 4) * 16 + b1 / 16);
                lemma_base64_digit_injective((a1 % 16) * 4, (b1 % 16) * 4);
                assert(a =~= b);
            } else {
                let a2 = a[2] as int;
                let b2 = b[2] as int;
                lemma_sextets(a1, a2);
                lemma_sextets(b1, b2);
                lemma_sextets(a2, 0);
                lemma_sextets(b2, 0);
                assert(e[0] == base64_digit(a0 / 4) && f[0] == base64_digit(b0 / 4));
                assert(e[1] == base64_digit((a0 % 4) * 16 + a1 / 16) && f[1] == base64_digit(
                    (b0 % 4) * 16 + b1 / 16,
                ));
                assert(e[2] == base64_digit((a1 % 16) * 4 + a2 / 64) && f[2] == base64_digit(
                    (b1 % 16) * 4 + b2 / 64,
                ));
                assert(e[3] == base64_digit(a2 % 64) && f[3] == base64_digit(b2 % 64));
                lemma_base64_digit_injective(a0 / 4, b0 / 4);
                lemma_base64_digit_injective((a0 % 4) * 16 + a1 / 16, (b0 % 4) * 16 + b1 / 16);
                lemma_base64_digit_injective((a1 % 16) * 4 + a2 / 64, (b1 % 16) * 4 + b2 / 64);
                lemma_base64_digit_injective(a2 % 64, b2 % 64);
                assert(base64_url_encode(a.skip(3)) =~= e.skip(4));
                assert(base64_url_encode(b.skip(3)) =~= e.skip(4));
                lemma_base64_injective(a.skip(3), b.skip(3));
                assert(a =~= seq![a[0], a[1], a[2]] + a.skip(3));
                assert(b =~= seq![b[0], b[1], b[2]] + b.skip(3));
            }
        }
    }
}

/// Decoding the base64 text of `bs` gives `bs`.
pub proof fn lemma_base64_roundtrip(bs: Seq<u8>)
    ensures
        base64_url_decode(base64_url_encode(bs)) == Some(bs),
{
    let e = base64_url_encode(bs);
    assert(exists|b: Seq<u8>| #[trigger] base64_url_encode(b) == e);
    let c = choose|b: Seq<u8>| #[trigger] base64_url_encode(b) == e;
    lemma_base64_injective(c, bs);
}

proof fn lemma_base64_digit(v: int)
    requires
        0 <= v < 64,
    ensures
        is_base64_url_char(base64_digit(v)),
{
}

pub open spec fn is_ascii_digit(c: char) -> bool {
    '0' <= c <= '9'
}

/// The ASCII digit for `d < 10`.
pub open spec fn digit_char(d: nat) -> char {
    ((d + 48) as u8) as char
}

/// The decimal digits of `v`, most significant first, no leading zeros.
pub open spec fn decimal(v: nat) -> Seq<char>
    decreases v,
{
    if v < 10 {
        seq![digit_char(v)]
    } else {
        decimal(v / 10).push(digit_char(v % 10))
    }
}

/// `"OSM" + version + "."`.
pub open spec fn prefix_spec(version: u8) -> Seq<char> {
    seq!['O', 'S', 'M'] + decimal(version as nat) + seq!['.']
}

/// The standard form of a payload.
pub open spec fn encode_standard_spec(p: PayloadView) -> Seq<char> {
    prefix_spec(p.version) + base64_url_encode(bytes_of(p))
}

/// Where `c` first occurs in `s`.
pub open spec fn index_of(s: Seq<char>, c: char) -> Option<int>
    decreases s.len(),
{
    if s.len() == 0 {
        None
    } else if s[0] == c {
        Some(0)
    } else {
        match index_of(s.drop_first(), c) {
            Some(i) => Some(i + 1),
            None => None,
        }
    }
}

pub open spec fn shift_index(o: Option<int>, d: int) -> Option<int> {
    match o {
        Some(i) => Some(i + d),
        None => None,
    }
}

/// What reading the standard form gives: after trimming, `OSM`, then a single
/// ASCII digit up to the first `.`, then base64url of a payload.
pub open spec fn decode_standard_spec(s: Seq<char>) -> Result<PayloadView, FormatErrorView> {
    let t = trim(s);
    if !(t.len() >= 3 && t[0] == 'O' && t[1] == 'S' && t[2] == 'M') {
        Err(FormatErrorView::Malformed)
    } else {
        let rest = t.skip(3);
        match index_of(rest, '.') {
            None => Err(FormatErrorView::Malformed),
            Some(d) => {
                if d != 1 || !is_ascii_digit(rest[0]) {
                    Err(FormatErrorView::Malformed)
                } else {
                    match base64_url_decode(rest.skip(2)) {
                        None => Err(FormatErrorView::Malformed),
                        Some(b) => parse_payload(b),
                    }
                }
            },
        }
    }
}

pub(crate) fn decimal_chars(v: u8) -> (r: Vec<char>)
    ensures
        r@ == decimal(v as nat),
{
    let mut r: Vec<char> = Vec::new();
    if v >= 100 {
        r.push(((v / 100) + 48) as char);
        r.push((((v / 10) % 10) + 48) as char);
        r.push(((v % 10) + 48) as char);
        assert(r@[0] == digit_char((v / 100) as nat));
        assert(r@[1] == digit_char(((v / 10) % 10) as nat));
        assert(r@[2] == digit_char((v % 10) as nat));
        assert(decimal((v / 100) as nat) == seq![digit_char((v / 100) as nat)]);
        assert(decimal((v / 10) as nat) == decimal((v / 100) as nat).push(
            digit_char(((v / 10) % 10) as nat),
        ));
        assert(decimal(v as nat) == decimal((v / 10) as nat).push(digit_char((v % 10) as nat)));
    } else if v >= 10 {
        r.push(((v / 10) + 48) as char);
        r.push(((v % 10) + 48) as char);
        assert(r@[0] == digit_char((v / 10) as nat));
        assert(r@[1] == digit_char((v % 10) as nat));
        assert(decimal((v / 10) as nat) == seq![digit_char((v / 10) as nat)]);
        assert(decimal(v as nat) == decimal((v / 10) as nat).push(digit_char((v % 10) as nat)));
    } else {
        r.push((v + 48) as char);
        assert(r@[0] == digit_char(v as nat));
        assert(decimal(v as nat) == seq![digit_char(v as nat)]);
    }
    assert(r@ =~= decimal(v as nat));
    r
}

fn prefix_chars(version: u8) -> (r: Vec<char>)
    ensures
        r@ == prefix_spec(version),
{
    let mut r: Vec<char> = Vec::new();
    r.push('O');
    r.push('S');
    r.push('M');
    let d = decimal_chars(version);
    let mut i: usize = 0;
    while i < d.len()
        invariant
            0 <= i <= d@.len(),
            r@ == seq!['O', 'S', 'M'] + d@.take(i as int),
        decreases d@.len() - i,
    {
        r.push(d[i]);
        i = i + 1;
        assert(r@ =~= seq!['O', 'S', 'M'] + d@.take(i as int));
    }
    r.push('.');
    assert(r@ =~= prefix_spec(version));
    r
}

/// The text prefix for a given binary version, e.g. version 1 gives `OSM1.`.
pub fn standard_prefix(version: u8) -> (r: String)
    ensures
        r@ == prefix_spec(version),
{
    let p = prefix_chars(version);
    string_from_chars(p.as_slice())
}

pub(crate) proof fn lemma_standard_roundtrip(p: PayloadView, e: Seq<char>)
    requires
        readable(p),
        e == base64_url_encode(bytes_of(p)),
    ensures
        decode_standard_spec(encode_standard_spec(p)) == Ok::<PayloadView, FormatErrorView>(p),
        trim(encode_standard_spec(p)) == encode_standard_spec(p),
        is_standard_spec(encode_standard_spec(p)),
{
    lemma_base64_url_encode(bytes_of(p));
    lemma_base64_roundtrip(bytes_of(p));
    let text = encode_standard_spec(p);
    assert(decimal(1) == seq!['1']);
    assert(text =~= seq!['O', 'S', 'M', '1', '.'] + e);
    if e.len() > 0 {
        assert(is_base64_url_char(e[e.len() - 1]));
        assert(text.last() == e[e.len() - 1]);
    }
    lemma_trim_fixed(text);
    let rest = text.skip(3);
    assert(rest =~= seq!['1', '.'] + e);
    assert(rest.drop_first()[0] == '.');
    assert(rest[0] == '1');
    assert(index_of(rest.drop_first(), '.') == Some(0int));
    assert(index_of(rest, '.') == Some(1int));
    assert(rest.skip(2) =~= e);
    law_bytes_roundtrip(p);
}

/// Payloads whose standard form fits in memory.
pub open spec fn standard_encodable(p: PayloadView) -> bool {
    base64_len(bytes_of(p).len() as int) <= usize::MAX
}

/// The standard form: `OSM` + version + `.` + base64url(payload bytes).
pub fn encode_standard(payload: &Payload) -> (r: String)
    requires
        standard_encodable(payload@),
    ensures
        r@ == encode_standard_spec(payload@),
        readable(payload@) ==> decode_standard_spec(r@) == Ok::<PayloadView, FormatErrorView>(
            payload@,
        ),
        readable(payload@) ==> forall|h: Seq<Seq<char>>, k: Seq<Seq<char>>|
            #[trigger] detect_spec(r@, h, k) == Ok::<PayloadView, FormatErrorView>(payload@),
{
    let bytes = payload.to_bytes();
    let body = chars_of(base64_encode(bytes.as_slice()).as_str());
    let mut r = prefix_chars(payload.version);
    let ghost p = r@;
    let mut i: usize = 0;
    while i < body.len()
        invariant
            0 <= i <= body@.len(),
            r@ == p + body@.take(i as int),
        decreases body@.len() - i,
    {
        r.push(body[i]);
        i = i + 1;
        assert(r@ =~= p + body@.take(i as int));
    }
    assert(body@.take(i as int) =~= body@);
    proof {
        if readable(payload@) {
            lemma_standard_roundtrip(payload@, body@);
        }
    }
    string_from_chars(r.as_slice())
}

/// Reads the standard form; any departure from it is `Malformed`, and the
/// payload's own checks follow.
pub fn decode_standard(s: &str) -> (r: Result<Payload, FormatError>)
    ensures
        result_view(r) == decode_standard_spec(s@),
        is_standard_spec(trim(s@)) && (exists|i: int|
            5 <= i < trim(s@).len() && !is_base64_url_char(#[trigger] trim(s@)[i])) ==> r
            matches Err(FormatError::Malformed),
{
    let cs = chars_of(s);
    let t = trim_chars(cs.as_slice());
    if !(t.len() >= 3 && t[0] == 'O' && t[1] == 'S' && t[2] == 'M') {
        return Err(FormatError::Malformed);
    }
    let rest = chars_range(t.as_slice(), 3, t.len());
    let mut d: usize = 0;
    assert(rest@.skip(0) =~= rest@);
    assert(shift_index(index_of(rest@, '.'), 0) == index_of(rest@, '.'));
    while d < rest.len() && rest[d] != '.'
        invariant
            0 <= d <= rest@.len(),
            forall|j: int| 0 <= j < d ==> rest@[j] != '.',
            index_of(rest@, '.') == shift_index(index_of(rest@.skip(d as int), '.'), d as int),
        decreases rest@.len() - d,
    {
        assert(rest@.skip(d as int).drop_first() =~= rest@.skip(d + 1));
        d = d + 1;
    }
    if d == rest.len() {
        assert(rest@.skip(d as int) =~= seq![]);
        return Err(FormatError::Malformed);
    }
    assert(rest@.skip(d as int)[0] == '.');
    if d != 1 || !('0' <= rest[0] && rest[0] <= '9') {
        return Err(FormatError::Malformed);
    }
    let body = chars_range(rest.as_slice(), 2, rest.len());
    assert(body@ =~= rest@.skip(2));
    let decoded = base64_decode(body.as_slice());
    proof {
        if decoded is Some {
            let v = decoded->0@;
            lemma_base64_roundtrip(v);
            lemma_base64_url_encode(v);
            if exists|i: int| 5 <= i < t@.len() && !is_base64_url_char(#[trigger] t@[i]) {
                let i = choose|i: int| 5 <= i < t@.len() && !is_base64_url_char(#[trigger] t@[i]);
                assert(body@[i - 5] == t@[i]);
            }
        } else {
            assert(!exists|b: Seq<u8>| #[trigger] base64_url_encode(b) == body@);
        }
    }
    match decoded {
        None => Err(FormatError::Malformed),
        Some(bytes) => Payload::from_bytes(bytes.as_slice()),
    }
}

} // verus!
