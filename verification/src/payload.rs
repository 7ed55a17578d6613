use vstd::prelude::*;

use crate::error::{FormatError, FormatErrorView};
use crate::params::Argon2Params;

verus! {

/// The three magic bytes `OSM` that open every payload.
pub const MAGIC: [u8; 3] = [0x4F, 0x53, 0x4D];

/// Length of the header that is authenticated as AES-GCM associated data.
pub const HEADER_LEN: usize = 41;

/// Length of the AES-GCM authentication tag that ends every ciphertext.
pub const GCM_TAG_LEN: usize = 16;

/// The binary payload: header fields plus the AES-256-GCM ciphertext.
#[derive(Debug, Clone, PartialEq, Eq)]
pub struct Payload {
    pub version: u8,
    pub params: Argon2Params,
    pub salt: [u8; 16],
    pub nonce: [u8; 12],
    /// AES-256-GCM ciphertext with the 16-byte tag appended.
    pub ciphertext: Vec<u8>,
}

/// The mathematical content of a [`Payload`].
pub struct PayloadView {
    pub version: u8,
    pub params: Argon2Params,
    pub salt: Seq<u8>,
    pub nonce: Seq<u8>,
    pub ciphertext: Seq<u8>,
}

impl View for Payload {
    type V = PayloadView;

    open spec fn view(&self) -> PayloadView {
        PayloadView {
            version: self.version,
            params: self.params,
            salt: self.salt@,
            nonce: self.nonce@,
            ciphertext: self.ciphertext@,
        }
    }
}

/// The version of the binary layout that this library writes and reads.
pub open spec fn current_version() -> u8 {
    1
}

pub open spec fn magic_bytes() -> Seq<u8> {
    seq![0x4Fu8, 0x53u8, 0x4Du8]
}

/// Big-endian encoding of a 32-bit integer.
pub open spec fn be32(x: u32) -> Seq<u8> {
    seq![
        (x / 0x1000000) as u8,
        ((x / 0x10000) % 0x100) as u8,
        ((x / 0x100) % 0x100) as u8,
        (x % 0x100) as u8,
    ]
}

/// The integer that four big-endian bytes starting at `i` stand for.
pub open spec fn be32_at(b: Seq<u8>, i: int) -> int {
    b[i] * 0x1000000 + b[i + 1] * 0x10000 + b[i + 2] * 0x100 + b[i + 3]
}

/// Header layout: magic(3) version(1) m_cost(4 BE) t_cost(4 BE) p_cost(1) salt(16) nonce(12).
pub open spec fn header_of(p: PayloadView) -> Seq<u8> {
    magic_bytes() + seq![p.version] + be32(p.params.m_cost) + be32(p.params.t_cost) + seq![
        p.params.p_cost,
    ] + p.salt + p.nonce
}

/// The full binary form: header followed by the ciphertext.
pub open spec fn bytes_of(p: PayloadView) -> Seq<u8> {
    header_of(p) + p.ciphertext
}

/// What `from_bytes` makes of a byte string.
pub open spec fn parse_payload(b: Seq<u8>) -> Result<PayloadView, FormatErrorView> {
    if b.len() < 57 || b.subrange(0, 3) != magic_bytes() {
        Err(FormatErrorView::Malformed)
    } else if b[3] != current_version() {
        Err(FormatErrorView::UnsupportedVersion(b[3]))
    } else {
        Ok(
            PayloadView {
                version: b[3],
                params: Argon2Params {
                    m_cost: be32_at(b, 4) as u32,
                    t_cost: be32_at(b, 8) as u32,
                    p_cost: b[12],
                },
                salt: b.subrange(13, 29),
                nonce: b.subrange(29, 41),
                ciphertext: b.subrange(41, b.len() as int),
            },
        )
    }
}

/// The views of a payload-or-error result.
pub open spec fn result_view(r: Result<Payload, FormatError>) -> Result<PayloadView, FormatErrorView> {
    match r {
        Ok(p) => Ok(p@),
        Err(e) => Err(e@),
    }
}

/// A payload that this library can write and read back: current version and a
/// ciphertext long enough to hold the tag.
pub open spec fn readable(p: PayloadView) -> bool {
    p.version == current_version() && p.ciphertext.len() >= 16 && p.salt.len() == 16
        && p.nonce.len() == 12
}

pub proof fn lemma_be32_roundtrip(x: u32)
    ensures
        be32(x).len() == 4,
        be32_at(be32(x), 0) == x,
{
    let b = be32(x);
    assert(b[0] * 0x1000000 + b[1] * 0x10000 + b[2] * 0x100 + b[3] == x) by (nonlinear_arith)
        requires
            b[0] == x / 0x1000000,
            b[1] == (x / 0x10000) % 0x100,
            b[2] == (x / 0x100) % 0x100,
            b[3] == x % 0x100,
            0 <= x < 0x100000000,
    ;
}

proof fn lemma_be32_of_bytes(b: Seq<u8>, i: int)
    requires
        0 <= i,
        i + 4 <= b.len(),
    ensures
        0 <= be32_at(b, i) < 0x100000000,
        be32(be32_at(b, i) as u32) == b.subrange(i, i + 4),
{
    let (b0, b1, b2, b3) = (b[i] as int, b[i + 1] as int, b[i + 2] as int, b[i + 3] as int);
    let x = be32_at(b, i);
    assert(0 <= x < 0x100000000 && x / 0x1000000 == b0 && (x / 0x10000) % 0x100 == b1 && (x
        / 0x100) % 0x100 == b2 && x % 0x100 == b3) by (nonlinear_arith)
        requires
            x == b0 * 0x1000000 + b1 * 0x10000 + b2 * 0x100 + b3,
            0 <= b0 < 256,
            0 <= b1 < 256,
            0 <= b2 < 256,
            0 <= b3 < 256,
    ;
    assert(be32(x as u32) =~= b.subrange(i, i + 4));
}

/// Writes `x` big-endian at `out[i..i+4]`.
fn put_be32(out: &mut [u8; 41], i: usize, x: u32)
    requires
        i + 4 <= 41,
    ensures
        final(out)@ == old(out)@.subrange(0, i as int) + be32(x) + old(out)@.subrange(
            i + 4,
            41,
        ),
{
    out[i] = (x / 0x1000000) as u8;
    out[i + 1] = ((x / 0x10000) % 0x100) as u8;
    out[i + 2] = ((x / 0x100) % 0x100) as u8;
    out[i + 3] = (x % 0x100) as u8;
    assert(out@ =~= old(out)@.subrange(0, i as int) + be32(x) + old(out)@.subrange(
        i + 4,
        41,
    ));
}

pub(crate) fn read_be32(b: &[u8], i: usize) -> (r: u32)
    requires
        i + 4 <= b@.len(),
    ensures
        r == be32_at(b@, i as int),
{
    proof {
        lemma_be32_of_bytes(b@, i as int);
    }
    (b[i] as u32) * 0x1000000 + (b[i + 1] as u32) * 0x10000 + (b[i + 2] as u32) * 0x100 + (b[i
        + 3] as u32)
}

impl Payload {
    /// The version of the binary layout that this library writes and reads.
    pub const CURRENT_VERSION: u8 = 1;

    /// The 41-byte header used as AES-GCM additional authenticated data.
    pub fn header(&self) -> (h: [u8; 41])
        ensures
            h@ == header_of(self@),
    {
        let mut h = [0u8; 41];
        h[0] = 0x4F;
        h[1] = 0x53;
        h[2] = 0x4D;
        h[3] = self.version;
        put_be32(&mut h, 4, self.params.m_cost);
        put_be32(&mut h, 8, self.params.t_cost);
        h[12] = self.params.p_cost;
        let mut i: usize = 0;
        while i < 16
            invariant
                0 <= i <= 16,
                h@.subrange(0, 13) == magic_bytes() + seq![self.version] + be32(
                    self.params.m_cost,
                ) + be32(self.params.t_cost) + seq![self.params.p_cost],
                h@.subrange(13, 13 + i) == self.salt@.subrange(0, i as int),
            decreases 16 - i,
        {
            h[13 + i] = self.salt[i];
            i = i + 1;
            assert(h@.subrange(13, 13 + i) =~= self.salt@.subrange(0, i as int));
        }
        let mut j: usize = 0;
        while j < 12
            invariant
                0 <= j <= 12,
                h@.subrange(0, 13) == magic_bytes() + seq![self.version] + be32(
                    self.params.m_cost,
                ) + be32(self.params.t_cost) + seq![self.params.p_cost],
                h@.subrange(13, 29) == self.salt@,
                h@.subrange(29, 29 + j) == self.nonce@.subrange(0, j as int),
            decreases 12 - j,
        {
            h[29 + j] = self.nonce[j];
            j = j + 1;
            assert(h@.subrange(29, 29 + j) =~= self.nonce@.subrange(0, j as int));
        }
        assert(h@ =~= h@.subrange(0, 13) + h@.subrange(13, 29) + h@.subrange(29, 41));
        h
    }

    /// The binary form: header followed by the ciphertext.
    pub fn to_bytes(&self) -> (out: Vec<u8>)
        ensures
            out@ == bytes_of(self@),
    {
        let h = self.header();
        let mut out: Vec<u8> = Vec::new();
        let mut i: usize = 0;
        while i < 41
            invariant
                0 <= i <= 41,
                h@ == header_of(self@),
                out@ == h@.subrange(0, i as int),
            decreases 41 - i,
        {
            out.push(h[i]);
            i = i + 1;
            assert(out@ =~= h@.subrange(0, i as int));
        }
        let mut k: usize = 0;
        while k < self.ciphertext.len()
            invariant
                0 <= k <= self.ciphertext@.len(),
                h@ == header_of(self@),
                out@ == h@ + self.ciphertext@.subrange(0, k as int),
            decreases self.ciphertext@.len() - k,
        {
            out.push(self.ciphertext[k]);
            k = k + 1;
            assert(out@ =~= h@ + self.ciphertext@.subrange(0, k as int));
        }
        assert(self.ciphertext@.subrange(0, k as int) =~= self.ciphertext@);
        out
    }

    /// Reads the binary form. Fails with `Malformed` when the input is shorter
    /// than a header and a tag or does not start with `OSM`, and with
    /// `UnsupportedVersion` when the version byte is not the current one.
    pub fn from_bytes(bytes: &[u8]) -> (r: Result<Payload, FormatError>)
        ensures
            result_view(r) == parse_payload(bytes@),
    {
        if bytes.len() < HEADER_LEN + GCM_TAG_LEN {
            return Err(FormatError::Malformed);
        }
        if bytes[0] != 0x4F || bytes[1] != 0x53 || bytes[2] != 0x4D {
            assert(bytes@.subrange(0, 3) != magic_bytes()) by {
                if bytes@.subrange(0, 3) == magic_bytes() {
                    assert(bytes@.subrange(0, 3)[0] == bytes@[0]);
                    assert(bytes@.subrange(0, 3)[1] == bytes@[1]);
                    assert(bytes@.subrange(0, 3)[2] == bytes@[2]);
                }
            }
            return Err(FormatError::Malformed);
        }
        assert(bytes@.subrange(0, 3) =~= magic_bytes());
        let version = bytes[3];
        if version != Self::CURRENT_VERSION {
            return Err(FormatError::UnsupportedVersion(version));
        }
        let m_cost = read_be32(bytes, 4);
        let t_cost = read_be32(bytes, 8);
        let p_cost = bytes[12];
        let mut salt = [0u8; 16];
        let mut i: usize = 0;
        while i < 16
            invariant
                0 <= i <= 16,
                bytes@.len() >= 57,
                salt@.subrange(0, i as int) == bytes@.subrange(13, 13 + i),
            decreases 16 - i,
        {
            salt[i] = bytes[13 + i];
            i = i + 1;
            assert(salt@.subrange(0, i as int) =~= bytes@.subrange(13, 13 + i));
        }
        let mut nonce = [0u8; 12];
        let mut j: usize = 0;
        while j < 12
            invariant
                0 <= j <= 12,
                bytes@.len() >= 57,
                nonce@.subrange(0, j as int) == bytes@.subrange(29, 29 + j),
            decreases 12 - j,
        {
            nonce[j] = bytes[29 + j];
            j = j + 1;
            assert(nonce@.subrange(0, j as int) =~= bytes@.subrange(29, 29 + j));
        }
        let mut ciphertext: Vec<u8> = Vec::new();
        let mut k: usize = HEADER_LEN;
        while k < bytes.len()
            invariant
                41 <= k <= bytes@.len(),
                ciphertext@ == bytes@.subrange(41, k as int),
            decreases bytes@.len() - k,
        {
            ciphertext.push(bytes[k]);
            k = k + 1;
            assert(ciphertext@ =~= bytes@.subrange(41, k as int));
        }
        assert(salt@ =~= salt@.subrange(0, 16));
        assert(nonce@ =~= nonce@.subrange(0, 12));
        let p = Payload {
            version,
            params: Argon2Params { m_cost, t_cost, p_cost },
            salt,
            nonce,
            ciphertext,
        };
        Ok(p)
    }
}

/// Writing a readable payload and reading the bytes back gives the same payload.
pub proof fn law_bytes_roundtrip(p: PayloadView)
    requires
        readable(p),
    ensures
        parse_payload(bytes_of(p)) == Ok::<PayloadView, FormatErrorView>(p),
{
    let b = bytes_of(p);
    lemma_be32_roundtrip(p.params.m_cost);
    lemma_be32_roundtrip(p.params.t_cost);
    assert(b.subrange(0, 3) =~= magic_bytes());
    assert(b.subrange(4, 8) =~= be32(p.params.m_cost));
    assert(b.subrange(8, 12) =~= be32(p.params.t_cost));
    assert(be32_at(b, 4) == be32_at(be32(p.params.m_cost), 0));
    assert(be32_at(b, 8) == be32_at(be32(p.params.t_cost), 0));
    assert(b.subrange(13, 29) =~= p.salt);
    assert(b.subrange(29, 41) =~= p.nonce);
    assert(b.subrange(41, b.len() as int) =~= p.ciphertext);
}

/// Every byte string that reads as a payload is exactly that payload's binary form.
pub proof fn law_bytes_canonical(b: Seq<u8>)
    requires
        parse_payload(b) is Ok,
    ensures
        bytes_of(parse_payload(b)->Ok_0) == b,
        readable(parse_payload(b)->Ok_0),
{
    let p = parse_payload(b)->Ok_0;
    lemma_be32_of_bytes(b, 4);
    lemma_be32_of_bytes(b, 8);
    assert(b =~= b.subrange(0, 3) + seq![b[3]] + b.subrange(4, 8) + b.subrange(8, 12) + seq![
        b[12],
    ] + b.subrange(13, 29) + b.subrange(29, 41) + b.subrange(41, b.len() as int));
    assert(bytes_of(p) =~= b);
}

} // verus!
