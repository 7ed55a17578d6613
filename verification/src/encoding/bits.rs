//! Bit strings (one `u8` of value 0 or 1 per bit, most significant first) and
//! their grouping into bytes and 11-bit word indices.
use vstd::prelude::*;

verus! {

pub open spec fn pow2n(n: nat) -> int
    decreases n,
{
    if n == 0 {
        1
    } else {
        2 * pow2n((n - 1) as nat)
    }
}

/// The lowest `n` bits of `x`, most significant first.
pub open spec fn bits_msb(x: int, n: nat) -> Seq<u8>
    decreases n,
{
    if n == 0 {
        seq![]
    } else {
        bits_msb(x / 2, (n - 1) as nat).push((x % 2) as u8)
    }
}

/// The number that a bit string stands for, most significant bit first.
pub open spec fn bits_value(b: Seq<u8>) -> int
    decreases b.len(),
{
    if b.len() == 0 {
        0
    } else {
        bits_value(b.drop_last()) * 2 + b.last()
    }
}

pub open spec fn is_bits(b: Seq<u8>) -> bool {
    forall|i: int| 0 <= i < b.len() ==> #[trigger] b[i] <= 1
}

/// The bits of each byte in turn, eight per byte.
pub open spec fn bits_of_bytes(bs: Seq<u8>) -> Seq<u8>
    decreases bs.len(),
{
    if bs.len() == 0 {
        seq![]
    } else {
        bits_msb(bs[0] as int, 8) + bits_of_bytes(bs.drop_first())
    }
}

/// The bits of each index in turn, eleven per index.
pub open spec fn bits_of_indices(ix: Seq<int>) -> Seq<u8>
    decreases ix.len(),
{
    if ix.len() == 0 {
        seq![]
    } else {
        bits_msb(ix[0], 11) + bits_of_indices(ix.drop_first())
    }
}

/// Whole bytes read from a bit string, eight bits each; an incomplete last group is dropped.
pub open spec fn bytes_of_bits(bits: Seq<u8>) -> Seq<u8>
    decreases bits.len(),
{
    if bits.len() < 8 {
        seq![]
    } else {
        seq![bits_value(bits.take(8)) as u8] + bytes_of_bits(bits.skip(8))
    }
}

/// Whole 11-bit groups read from a bit string; an incomplete last group is dropped.
pub open spec fn groups11(bits: Seq<u8>) -> Seq<int>
    decreases bits.len(),
{
    if bits.len() < 11 {
        seq![]
    } else {
        seq![bits_value(bits.take(11))] + groups11(bits.skip(11))
    }
}

pub open spec fn zeros(n: nat) -> Seq<u8> {
    Seq::new(n, |i: int| 0u8)
}

/// How many zero bits bring a length of `n` bits to a multiple of 11.
pub open spec fn pad11(n: int) -> int {
    (11 - n % 11) % 11
}

pub proof fn lemma_bits_msb(x: int, n: nat)
    requires
        0 <= x,
    ensures
        bits_msb(x, n).len() == n,
        is_bits(bits_msb(x, n)),
        x < pow2n(n) ==> bits_value(bits_msb(x, n)) == x,
    decreases n,
{
    if n > 0 {
        lemma_bits_msb(x / 2, (n - 1) as nat);
        let b = bits_msb(x, n);
        assert(b.drop_last() =~= bits_msb(x / 2, (n - 1) as nat));
        assert forall|i: int| 0 <= i < b.len() implies #[trigger] b[i] <= 1 by {
            if i < n - 1 {
                assert(b[i] == bits_msb(x / 2, (n - 1) as nat)[i]);
            }
        }
    }
}

pub proof fn lemma_bits_value_bound(b: Seq<u8>)
    requires
        is_bits(b),
    ensures
        0 <= bits_value(b) < pow2n(b.len()),
    decreases b.len(),
{
    if b.len() > 0 {
        assert(b.last() == b[b.len() - 1]);
        lemma_bits_value_bound(b.drop_last());
    }
}

/// Reading a bit string as a number and writing the number back gives the bits.
pub proof fn lemma_bits_value_msb(b: Seq<u8>)
    requires
        is_bits(b),
    ensures
        bits_msb(bits_value(b), b.len()) == b,
    decreases b.len(),
{
    if b.len() > 0 {
        let l = b.last();
        assert(l == b[b.len() - 1]);
        let v = bits_value(b.drop_last());
        lemma_bits_value_bound(b.drop_last());
        lemma_bits_value_msb(b.drop_last());
        assert((v * 2 + l) / 2 == v && (v * 2 + l) % 2 == l);
        assert(b.drop_last().push(l) =~= b);
    }
}

pub proof fn lemma_pow2_11()
    ensures
        pow2n(11) == 2048,
        pow2n(8) == 256,
{
    reveal_with_fuel(pow2n, 12);
}

pub proof fn lemma_bits_of_bytes(bs: Seq<u8>)
    ensures
        bits_of_bytes(bs).len() == 8 * bs.len(),
        is_bits(bits_of_bytes(bs)),
    decreases bs.len(),
{
    if bs.len() > 0 {
        lemma_bits_msb(bs[0] as int, 8);
        lemma_bits_of_bytes(bs.drop_first());
        let a = bits_msb(bs[0] as int, 8);
        let r = bits_of_bytes(bs.drop_first());
        assert forall|i: int| 0 <= i < (a + r).len() implies #[trigger] (a + r)[i] <= 1 by {
            if i < 8 {
                assert((a + r)[i] == a[i]);
            } else {
                assert((a + r)[i] == r[i - 8]);
            }
        }
    }
}

pub proof fn lemma_bits_of_indices(ix: Seq<int>)
    requires
        forall|i: int| 0 <= i < ix.len() ==> 0 <= #[trigger] ix[i],
    ensures
        bits_of_indices(ix).len() == 11 * ix.len(),
        is_bits(bits_of_indices(ix)),
    decreases ix.len(),
{
    if ix.len() > 0 {
        lemma_bits_msb(ix[0], 11);
        let t = ix.drop_first();
        assert forall|i: int| 0 <= i < t.len() implies 0 <= #[trigger] t[i] by {
            assert(t[i] == ix[i + 1]);
        }
        lemma_bits_of_indices(t);
        let a = bits_msb(ix[0], 11);
        let r = bits_of_indices(t);
        assert forall|i: int| 0 <= i < (a + r).len() implies #[trigger] (a + r)[i] <= 1 by {
            if i < 11 {
                assert((a + r)[i] == a[i]);
            } else {
                assert((a + r)[i] == r[i - 11]);
            }
        }
    }
}

/// Appending one index appends its eleven bits.
pub proof fn lemma_bits_of_indices_push(ix: Seq<int>, i: int)
    ensures
        bits_of_indices(ix.push(i)) == bits_of_indices(ix) + bits_msb(i, 11),
    decreases ix.len(),
{
    if ix.len() == 0 {
        assert(ix.push(i).drop_first() =~= seq![]);
        assert(ix.push(i)[0] == i);
        assert(bits_of_indices(ix) =~= seq![]);
        assert(bits_of_indices(ix.push(i).drop_first()) =~= seq![]);
        assert(bits_msb(i, 11) + seq![] =~= bits_msb(i, 11));
        assert(seq![] + bits_msb(i, 11) =~= bits_msb(i, 11));
    } else {
        assert(ix.push(i).drop_first() =~= ix.drop_first().push(i));
        lemma_bits_of_indices_push(ix.drop_first(), i);
        assert(bits_of_indices(ix.push(i)) =~= bits_of_indices(ix) + bits_msb(i, 11));
    }
}

/// Every 11-bit group of a bit string is an index below 2048.
pub proof fn lemma_groups11_bound(bits: Seq<u8>)
    requires
        is_bits(bits),
    ensures
        groups11(bits).len() == bits.len() / 11,
        forall|k: int| 0 <= k < groups11(bits).len() ==> 0 <= #[trigger] groups11(bits)[k] < 2048,
    decreases bits.len(),
{
    if bits.len() >= 11 {
        lemma_pow2_11();
        let t = bits.take(11);
        assert forall|i: int| 0 <= i < t.len() implies #[trigger] t[i] <= 1 by {
            assert(t[i] == bits[i]);
        }
        lemma_bits_value_bound(t);
        let s = bits.skip(11);
        assert forall|i: int| 0 <= i < s.len() implies #[trigger] s[i] <= 1 by {
            assert(s[i] == bits[i + 11]);
        }
        lemma_groups11_bound(s);
        let g = groups11(bits);
        assert forall|k: int| 0 <= k < g.len() implies 0 <= #[trigger] g[k] < 2048 by {
            if k > 0 {
                assert(g[k] == groups11(s)[k - 1]);
            }
        }
    }
}

/// Cutting a bit string into 11-bit groups and writing them back gives the bits.
pub proof fn lemma_groups11_roundtrip(bits: Seq<u8>)
    requires
        is_bits(bits),
        bits.len() % 11 == 0,
    ensures
        bits_of_indices(groups11(bits)) == bits,
    decreases bits.len(),
{
    if bits.len() >= 11 {
        let t = bits.take(11);
        assert forall|i: int| 0 <= i < t.len() implies #[trigger] t[i] <= 1 by {
            assert(t[i] == bits[i]);
        }
        lemma_bits_value_msb(t);
        let s = bits.skip(11);
        assert forall|i: int| 0 <= i < s.len() implies #[trigger] s[i] <= 1 by {
            assert(s[i] == bits[i + 11]);
        }
        lemma_groups11_roundtrip(s);
        let g = groups11(bits);
        assert(g.drop_first() =~= groups11(s));
        assert(bits_of_indices(g) =~= t + s);
        assert(t + s =~= bits);
    } else {
        assert(bits =~= seq![]);
    }
}

/// Reading bytes back from the bits of `bs` followed by a tail of zeros gives
/// `bs` followed by the whole zero bytes of the tail.
pub proof fn lemma_bytes_of_bits_of_bytes(bs: Seq<u8>, tail: Seq<u8>)
    requires
        tail.len() < 16,
        forall|i: int| 0 <= i < tail.len() ==> #[trigger] tail[i] == 0,
    ensures
        bytes_of_bits(bits_of_bytes(bs) + tail) == bs + (if tail.len() >= 8 {
            seq![0u8]
        } else {
            seq![]
        }),
    decreases bs.len(),
{
    let extra = if tail.len() >= 8 {
        seq![0u8]
    } else {
        seq![]
    };
    if bs.len() == 0 {
        assert(bits_of_bytes(bs) + tail =~= tail);
        if tail.len() >= 8 {
            let z = tail.take(8);
            assert(z =~= bits_msb(0, 8)) by {
                reveal_with_fuel(bits_msb, 9);
            }
            lemma_bits_msb(0, 8);
            lemma_pow2_11();
            assert(bits_value(z) == 0);
            assert(tail.skip(8).len() < 8);
            assert(bytes_of_bits(tail.skip(8)) =~= seq![]);
            assert(bits_value(tail.take(8)) as u8 == 0u8);
            assert(bytes_of_bits(tail) =~= seq![0u8]);
        }
        assert(bs + extra =~= extra);
    } else {
        let b0 = bs[0];
        lemma_bits_msb(b0 as int, 8);
        lemma_pow2_11();
        lemma_bits_of_bytes(bs.drop_first());
        let all = bits_of_bytes(bs) + tail;
        let rest = bits_of_bytes(bs.drop_first()) + tail;
        assert(all =~= bits_msb(b0 as int, 8) + rest);
        assert(all.take(8) =~= bits_msb(b0 as int, 8));
        assert(all.skip(8) =~= rest);
        lemma_bytes_of_bits_of_bytes(bs.drop_first(), tail);
        assert(bs + extra =~= seq![b0] + (bs.drop_first() + extra));
    }
}

/// Reading bytes back from the bits of `bs` followed by fewer than eight more
/// bits, whatever they are, gives `bs`: an incomplete last group is dropped.
pub proof fn law_short_tail_dropped(bs: Seq<u8>, tail: Seq<u8>)
    requires
        tail.len() < 8,
    ensures
        bytes_of_bits(bits_of_bytes(bs) + tail) == bs,
    decreases bs.len(),
{
    if bs.len() == 0 {
        assert(bits_of_bytes(bs) + tail =~= tail);
        assert(bs =~= seq![]);
    } else {
        let b0 = bs[0];
        lemma_bits_msb(b0 as int, 8);
        lemma_pow2_11();
        lemma_bits_of_bytes(bs.drop_first());
        let all = bits_of_bytes(bs) + tail;
        let rest = bits_of_bytes(bs.drop_first()) + tail;
        assert(all =~= bits_msb(b0 as int, 8) + rest);
        assert(all.take(8) =~= bits_msb(b0 as int, 8));
        assert(all.skip(8) =~= rest);
        law_short_tail_dropped(bs.drop_first(), tail);
        assert(bs =~= seq![b0] + bs.drop_first());
    }
}

/// Appends the lowest `n` bits of `x`, most significant first.
pub fn push_bits(bits: &mut Vec<u8>, x: u32, n: usize)
    requires
        n <= 32,
    ensures
        final(bits)@ == old(bits)@ + bits_msb(x as int, n as nat),
    decreases n,
{
    if n == 0 {
        assert(old(bits)@ + bits_msb(x as int, 0) =~= old(bits)@);
    } else {
        push_bits(bits, x / 2, n - 1);
        bits.push((x % 2) as u8);
        assert(bits@ =~= old(bits)@ + bits_msb(x as int, n as nat));
    }
}

/// Whole bytes read from a bit string, most significant bit first; a last group
/// of fewer than eight bits is dropped.
pub(crate) fn bits_to_bytes(bits: &Vec<u8>) -> (out: Vec<u8>)
    requires
        is_bits(bits@),
    ensures
        out@ == bytes_of_bits(bits@),
{
    let ghost bv = bits@;
    let mut out: Vec<u8> = Vec::new();
    let mut i: usize = 0;
    assert(bv.skip(0) =~= bv);
    assert(out@ + bytes_of_bits(bv) =~= bytes_of_bits(bv));
    while bits.len() - i >= 8
        invariant
            bits@ == bv,
            is_bits(bv),
            i <= bv.len(),
            bytes_of_bits(bv) == out@ + bytes_of_bits(bv.skip(i as int)),
        decreases bv.len() - i,
    {
        let v = read_bits(&bits, i, 8);
        proof {
            lemma_pow2_11();
            let t = bv.subrange(i as int, i + 8);
            assert forall|j: int| 0 <= j < t.len() implies #[trigger] t[j] <= 1 by {
                assert(t[j] == bv[i + j]);
            }
            lemma_bits_value_bound(t);
            assert(bv.skip(i as int).take(8) =~= t);
            assert(bv.skip(i as int).skip(8) =~= bv.skip(i + 8));
        }
        let ghost before = out@;
        out.push(v as u8);
        assert(out@ + bytes_of_bits(bv.skip(i + 8)) =~= before + bytes_of_bits(
            bv.skip(i as int),
        ));
        i = i + 8;
    }
    assert(bv.skip(i as int).len() < 8);
    assert(out@ + seq![] =~= out@);
    out
}

/// The number that `bits[start..start+n]` stands for.
pub fn read_bits(bits: &Vec<u8>, start: usize, n: usize) -> (r: u32)
    requires
        n <= 11,
        start + n <= bits@.len(),
        is_bits(bits@),
    ensures
        r == bits_value(bits@.subrange(start as int, start + n)),
{
    let mut acc: u32 = 0;
    let mut j: usize = 0;
    let len = bits.len();
    while j < n
        invariant
            0 <= j <= n <= 11,
            len == bits@.len(),
            start + n <= bits@.len(),
            is_bits(bits@),
            acc == bits_value(bits@.subrange(start as int, start + j)),
            acc < pow2n(j as nat),
        decreases n - j,
    {
        let ghost prev = bits@.subrange(start as int, start + j);
        assert(bits@.subrange(start as int, start + j + 1).drop_last() =~= prev);
        assert(bits@[start + j] <= 1);
        assert(pow2n(j as nat) <= 1024) by {
            reveal_with_fuel(pow2n, 12);
            assert(j <= 10);
            lemma_pow2_mono(j as nat, 10);
        }
        let b = bits[start + j];
        assert(b <= 1);
        acc = acc * 2 + (b as u32);
        j = j + 1;
    }
    acc
}

proof fn lemma_pow2_mono(a: nat, b: nat)
    requires
        a <= b,
    ensures
        pow2n(a) <= pow2n(b),
    decreases b,
{
    if a < b {
        lemma_pow2_mono(a, (b - 1) as nat);
        lemma_pow2_pos((b - 1) as nat);
    }
}

proof fn lemma_pow2_pos(a: nat)
    ensures
        pow2n(a) >= 1,
    decreases a,
{
    if a > 0 {
        lemma_pow2_pos((a - 1) as nat);
    }
}

} // verus!
