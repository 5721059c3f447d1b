//! Canonical integer storage widths, masks, and endianness-aware integer
//! loads and stores over byte sequences.
use vstd::arithmetic::power2::{lemma2_to64, lemma2_to64_rest, lemma_pow2_adds, pow2};
use vstd::bits::{lemma_u64_pow2_no_overflow, lemma_u64_shl_is_mul};
use vstd::prelude::*;

verus! {

/// Byte order of the multi-byte integers of a packet.
#[derive(Clone, Copy, Debug, PartialEq, Eq, Structural)]
pub enum Endianness {
    Big,
    Little,
}

/// The smallest member of the ladder 8, 16, ..., 64 that is at least `width`.
pub open spec fn storage_width_spec(width: nat) -> nat {
    if width <= 8 {
        8
    } else {
        ((width + 7) / 8) * 8
    }
}

/// Smallest canonical storage width (a multiple of eight between 8 and 64)
/// able to hold an integer of `width` bits.
pub fn storage_width(width: usize) -> (r: usize)
    requires
        width <= 64,
    ensures
        r == storage_width_spec(width as nat),
        r % 8 == 0,
        8 <= r <= 64,
        width <= r,
        r == 8 || r < width + 8,
{
    if width <= 8 {
        8
    } else {
        (width + 7) / 8 * 8
    }
}

/// The constant `(1 << width) - 1`.
pub fn mask_bits(width: usize) -> (r: u64)
    requires
        1 <= width <= 64,
    ensures
        r as nat == pow2(width as nat) - 1,
{
    proof {
        lemma2_to64();
    }
    if width == 64 {
        u64::MAX
    } else {
        proof {
            lemma_u64_pow2_no_overflow(width as nat);
            lemma_u64_shl_is_mul(1u64, width as u64);
        }
        (1u64 << (width as u64)) - 1
    }
}

/// Value of bytes read most significant first.
pub open spec fn be_value(s: Seq<u8>) -> nat
    decreases s.len(),
{
    if s.len() == 0 {
        0
    } else {
        be_value(s.drop_last()) * 256 + s.last() as nat
    }
}

/// Value of bytes read least significant first.
pub open spec fn le_value(s: Seq<u8>) -> nat
    decreases s.len(),
{
    if s.len() == 0 {
        0
    } else {
        s[0] as nat + 256 * le_value(s.drop_first())
    }
}

/// Value of a byte sequence in the given byte order.
pub open spec fn uint_value(s: Seq<u8>, e: Endianness) -> nat {
    match e {
        Endianness::Big => be_value(s),
        Endianness::Little => le_value(s),
    }
}

/// The `n` low bytes of `v`, most significant first.
pub open spec fn be_bytes(v: nat, n: nat) -> Seq<u8>
    decreases n,
{
    if n == 0 {
        Seq::empty()
    } else {
        be_bytes(v / 256, (n - 1) as nat).push((v % 256) as u8)
    }
}

/// The `n` low bytes of `v`, least significant first.
pub open spec fn le_bytes(v: nat, n: nat) -> Seq<u8>
    decreases n,
{
    if n == 0 {
        Seq::empty()
    } else {
        seq![(v % 256) as u8] + le_bytes(v / 256, (n - 1) as nat)
    }
}

/// The `n` low bytes of `v` in the given byte order.
pub open spec fn uint_bytes(v: nat, n: nat, e: Endianness) -> Seq<u8> {
    match e {
        Endianness::Big => be_bytes(v, n),
        Endianness::Little => le_bytes(v, n),
    }
}

pub proof fn lemma_pow2_bytes(n: nat)
    requires
        n >= 1,
    ensures
        pow2(8 * n) == 256 * pow2(8 * (n - 1) as nat),
{
    lemma2_to64();
    lemma_pow2_adds(8, 8 * (n - 1) as nat);
    assert(8 + 8 * (n - 1) as nat == 8 * n);
}

pub proof fn lemma_bytes_len(v: nat, n: nat)
    ensures
        be_bytes(v, n).len() == n,
        le_bytes(v, n).len() == n,
    decreases n,
{
    if n > 0 {
        lemma_bytes_len(v / 256, (n - 1) as nat);
    }
}

pub proof fn lemma_be_bound(s: Seq<u8>)
    ensures
        be_value(s) < pow2(8 * s.len()),
    decreases s.len(),
{
    lemma2_to64();
    if s.len() > 0 {
        lemma_be_bound(s.drop_last());
        lemma_pow2_bytes(s.len());
        let p = pow2(8 * (s.len() - 1) as nat);
        let a = be_value(s.drop_last());
        let b = s.last() as nat;
        assert(a * 256 + b < 256 * p) by (nonlinear_arith)
            requires
                a < p,
                b < 256,
        ;
    }
}

pub proof fn lemma_le_bound(s: Seq<u8>)
    ensures
        le_value(s) < pow2(8 * s.len()),
    decreases s.len(),
{
    lemma2_to64();
    if s.len() > 0 {
        lemma_le_bound(s.drop_first());
        lemma_pow2_bytes(s.len());
        let p = pow2(8 * (s.len() - 1) as nat);
        let a = le_value(s.drop_first());
        let b = s[0] as nat;
        assert(b + 256 * a < 256 * p) by (nonlinear_arith)
            requires
                a < p,
                b < 256,
        ;
    }
}

/// Writing an integer of `n` bytes and reading it back in the same byte order
/// gives the original value, for every value below `2^(8n)`.
pub proof fn lemma_uint_round_trip(v: nat, n: nat, e: Endianness)
    requires
        v < pow2(8 * n),
    ensures
        uint_value(uint_bytes(v, n, e), e) == v,
        uint_bytes(v, n, e).len() == n,
    decreases n,
{
    lemma_bytes_len(v, n);
    lemma2_to64();
    if n == 0 {
        assert(v == 0);
    } else {
        lemma_pow2_bytes(n);
        let p = pow2(8 * (n - 1) as nat);
        assert(v / 256 < p) by (nonlinear_arith)
            requires
                v < 256 * p,
        ;
        lemma_uint_round_trip(v / 256, (n - 1) as nat, e);
        match e {
            Endianness::Big => {
                assert(be_bytes(v, n).drop_last() =~= be_bytes(v / 256, (n - 1) as nat));
            },
            Endianness::Little => {
                assert(le_bytes(v, n).drop_first() =~= le_bytes(v / 256, (n - 1) as nat));
            },
        }
    }
}

fn put_be(out: &mut Vec<u8>, v: u64, n: usize)
    requires
        n <= 8,
    ensures
        final(out)@ == old(out)@ + be_bytes(v as nat, n as nat),
    decreases n,
{
    if n == 0 {
        assert(old(out)@ + Seq::<u8>::empty() =~= old(out)@);
    } else {
        put_be(out, v / 256, n - 1);
        out.push((v % 256) as u8);
        assert(final(out)@ =~= old(out)@ + be_bytes(v as nat, n as nat));
    }
}

fn put_le(out: &mut Vec<u8>, v: u64, n: usize)
    requires
        n <= 8,
    ensures
        final(out)@ == old(out)@ + le_bytes(v as nat, n as nat),
    decreases n,
{
    if n == 0 {
        assert(old(out)@ + Seq::<u8>::empty() =~= old(out)@);
    } else {
        out.push((v % 256) as u8);
        put_le(out, v / 256, n - 1);
        assert(final(out)@ =~= old(out)@ + le_bytes(v as nat, n as nat));
    }
}

/// Appends the `nbytes` low bytes of `value` to `out` in byte order `e`.
/// A single byte has no byte order.
pub fn put_uint(out: &mut Vec<u8>, value: u64, nbytes: usize, e: Endianness)
    requires
        1 <= nbytes <= 8,
        value < pow2(8 * nbytes as nat),
    ensures
        final(out)@ == old(out)@ + uint_bytes(value as nat, nbytes as nat, e),
        final(out)@.len() == old(out)@.len() + nbytes,
        uint_value(final(out)@.subrange(old(out)@.len() as int, final(out)@.len() as int), e)
            == value,
{
    match e {
        Endianness::Big => put_be(out, value, nbytes),
        Endianness::Little => put_le(out, value, nbytes),
    }
    proof {
        lemma_uint_round_trip(value as nat, nbytes as nat, e);
        assert(final(out)@.subrange(old(out)@.len() as int, final(out)@.len() as int)
            =~= uint_bytes(value as nat, nbytes as nat, e));
    }
}

fn get_be(s: &[u8], start: usize, n: usize) -> (r: u64)
    requires
        n <= 8,
        start + n <= s@.len(),
    ensures
        r == be_value(s@.subrange(start as int, start + n)),
    decreases n,
{
    if n == 0 {
        0
    } else {
        let len = s.len();
        let a = get_be(s, start, n - 1);
        proof {
            let sub = s@.subrange(start as int, start + n);
            assert(sub.drop_last() =~= s@.subrange(start as int, start + n - 1));
            lemma_be_bound(sub.drop_last());
            assert(sub.drop_last().len() == n - 1);
            assert(a < pow2(8 * (n - 1) as nat));
            lemma2_to64();
            if n - 1 < 7 {
                vstd::arithmetic::power2::lemma_pow2_strictly_increases(
                    8 * (n - 1) as nat,
                    56,
                );
            }
            lemma2_to64_rest();
            assert(pow2(8 * (n - 1) as nat) <= 0x100000000000000);
            assert(a < 0x100000000000000);
        }
        a * 256 + s[start + n - 1] as u64
    }
}

fn get_le(s: &[u8], start: usize, n: usize) -> (r: u64)
    requires
        n <= 8,
        start + n <= s@.len(),
    ensures
        r == le_value(s@.subrange(start as int, start + n)),
    decreases n,
{
    if n == 0 {
        0
    } else {
        let len = s.len();
        let a = get_le(s, start + 1, n - 1);
        proof {
            let sub = s@.subrange(start as int, start + n);
            assert(sub.drop_first() =~= s@.subrange(start + 1, start + n));
            lemma_le_bound(sub.drop_first());
            assert(sub.drop_first().len() == n - 1);
            assert(a < pow2(8 * (n - 1) as nat));
            lemma2_to64();
            if n - 1 < 7 {
                vstd::arithmetic::power2::lemma_pow2_strictly_increases(
                    8 * (n - 1) as nat,
                    56,
                );
            }
            lemma2_to64_rest();
            assert(pow2(8 * (n - 1) as nat) <= 0x100000000000000);
            assert(a < 0x100000000000000);
        }
        s[start] as u64 + 256 * a
    }
}

/// Reads an integer of `nbytes` bytes, starting at `start`, in byte order `e`.
pub fn get_uint(s: &[u8], start: usize, nbytes: usize, e: Endianness) -> (r: u64)
    requires
        1 <= nbytes <= 8,
        start + nbytes <= s@.len(),
    ensures
        r == uint_value(s@.subrange(start as int, start + nbytes), e),
{
    match e {
        Endianness::Big => get_be(s, start, nbytes),
        Endianness::Little => get_le(s, start, nbytes),
    }
}

} // verus!
