//! Sources of the salt and nonce bytes.
use rand_core::RngCore;
use vstd::prelude::*;

verus! {

/// A source of random bytes, so that tests and test-vector generation can be
/// deterministic.
pub trait Rng: Sized {
    /// Whether drawing `out` from this source may leave it as `next`.
    spec fn draws(&self, out: Seq<u8>, next: Self) -> bool;

    /// Overwrites every byte of `buf` with the next bytes of the source.
    fn fill(&mut self, buf: &mut [u8])
        ensures
            final(buf)@.len() == old(buf)@.len(),
            old(self).draws(final(buf)@, *final(self)),
    ;
}

/// The operating system's CSPRNG.
pub struct OsRng;

/// Fills `buf` from the operating system (`rand_core::OsRng::fill_bytes`, which
/// panics if the OS source fails). Only the length of `buf` is claimed.
#[verifier::external_body]
fn os_fill(buf: &mut [u8])
    ensures
        final(buf)@.len() == old(buf)@.len(),
{
    rand_core::OsRng.fill_bytes(buf)
}

impl Rng for OsRng {
    /// Any bytes may come from the operating system.
    open spec fn draws(&self, out: Seq<u8>, next: Self) -> bool {
        true
    }

    fn fill(&mut self, buf: &mut [u8]) {
        os_fill(buf)
    }
}

/// A deterministic source that emits a fixed byte sequence, cycling when it is
/// exhausted. For tests and test-vector generation only.
pub struct FixedRng {
    bytes: Vec<u8>,
    pos: usize,
}

impl FixedRng {
    #[verifier::type_invariant]
    closed spec fn inv(self) -> bool {
        self.pos < self.bytes@.len()
    }

    /// The cycled bytes.
    pub closed spec fn seed(self) -> Seq<u8> {
        self.bytes@
    }

    /// Where in the cycle the next byte comes from.
    pub closed spec fn position(self) -> nat {
        self.pos as nat
    }

    /// The bytes that the next `n` draws give.
    pub open spec fn next_bytes(self, n: nat) -> Seq<u8> {
        Seq::new(n, |i: int| self.seed()[(self.position() + i) % (self.seed().len() as int)])
    }

    /// A source cycling through `bytes`, starting at the first; `bytes` must not be empty.
    pub fn new(bytes: Vec<u8>) -> (r: FixedRng)
        requires
            bytes@.len() > 0,
        ensures
            r.seed() == bytes@,
            r.position() == 0,
    {
        FixedRng { bytes, pos: 0 }
    }
}

impl Rng for FixedRng {
    /// The next bytes of the cycle, the position moved on past them.
    open spec fn draws(&self, out: Seq<u8>, next: Self) -> bool {
        &&& out == self.next_bytes(out.len())
        &&& next.seed() == self.seed()
        &&& next.position() as int == (self.position() + out.len()) as int % (
        self.seed().len() as int)
    }

    /// Writes the next `buf.len()` bytes of the cycle.
    fn fill(&mut self, buf: &mut [u8])
        ensures
            final(buf)@ == old(self).next_bytes(old(buf)@.len()),
            final(self).seed() == old(self).seed(),
            final(self).position() as int == (old(self).position() + old(buf)@.len()) as int % (old(
                self,
            ).seed().len() as int),
    {
        proof {
            use_type_invariant(&*self);
        }
        let n = self.bytes.len();
        let ghost p0 = self.pos as int;
        let mut i: usize = 0;
        assert((p0 + 0) % (n as int) == p0) by (nonlinear_arith)
            requires
                0 <= p0 < n,
        ;
        while i < buf.len()
            invariant
                0 <= i <= buf@.len(),
                buf@.len() == old(buf)@.len(),
                n == self.bytes@.len(),
                self.bytes@ == old(self).seed(),
                p0 == old(self).position(),
                n > 0,
                self.pos < n,
                self.pos as int == (p0 + i) % (n as int),
                forall|j: int| 0 <= j < i ==> buf@[j] == self.bytes@[(p0 + j) % (n as int)],
            decreases buf@.len() - i,
        {
            buf[i] = self.bytes[self.pos];
            self.pos = if self.pos + 1 == n {
                0
            } else {
                self.pos + 1
            };
            proof {
                assert((p0 + i + 1) % (n as int) == if (p0 + i) % (n as int) + 1 == n {
                    0
                } else {
                    (p0 + i) % (n as int) + 1
                }) by (nonlinear_arith)
                    requires
                        n > 0,
                        p0 >= 0,
                        i >= 0,
                ;
            }
            i = i + 1;
        }
        assert(buf@ =~= old(self).next_bytes(old(buf)@.len()));
    }
}

/// Two draws in a row from a fixed source give what one draw of both lengths
/// gives: the source goes on through its cycle where the last draw stopped.
pub proof fn law_fixed_draws_concat(r: FixedRng, a: Seq<u8>, mid: FixedRng, b: Seq<u8>, next: FixedRng)
    requires
        r.seed().len() > 0,
        r.draws(a, mid),
        mid.draws(b, next),
    ensures
        r.draws(a + b, next),
{
    let n = r.seed().len() as int;
    let p = r.position() as int;
    let ab = a + b;
    assert forall|i: int| 0 <= i < ab.len() implies ab[i] == r.next_bytes(ab.len())[i] by {
        if i >= a.len() {
            let j = i - a.len();
            vstd::arithmetic::div_mod::lemma_add_mod_noop(p + a.len(), j, n);
            vstd::arithmetic::div_mod::lemma_mod_twice(j, n);
            vstd::arithmetic::div_mod::lemma_add_mod_noop(
                (p + a.len()) % n,
                j,
                n,
            );
            vstd::arithmetic::div_mod::lemma_mod_twice(p + a.len(), n);
            assert(b[j] == r.seed()[((p + a.len()) % n + j) % n]);
            assert((p + a.len() + j) == p + i);
        }
    }
    assert(ab =~= r.next_bytes(ab.len()));
    vstd::arithmetic::div_mod::lemma_add_mod_noop(p + a.len(), b.len() as int, n);
    vstd::arithmetic::div_mod::lemma_add_mod_noop((p + a.len()) % n, b.len() as int, n);
    vstd::arithmetic::div_mod::lemma_mod_twice(p + a.len(), n);
}

} // verus!
