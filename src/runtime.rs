//! Encoding and decoding of the variable-length parts of a packet: arrays of
//! fixed-width integers and the payload tail.
use crate::chunk::{check_remaining, DecodeError, EncodeError};
use crate::width::{get_uint, lemma_uint_round_trip, put_uint, uint_bytes, uint_value, Endianness};
use vstd::arithmetic::power2::pow2;
use vstd::prelude::*;

verus! {

/// Bytes of an array of integers of `n` bytes each, in order.
pub open spec fn array_bytes(elems: Seq<u64>, n: nat, e: Endianness) -> Seq<u8>
    decreases elems.len(),
{
    if elems.len() == 0 {
        Seq::empty()
    } else {
        array_bytes(elems.drop_last(), n, e) + uint_bytes(elems.last() as nat, n, e)
    }
}

/// Every element of an encoded array, read back at its place in the same
/// byte order, gives back the element.
pub proof fn lemma_array_round_trip(elems: Seq<u64>, n: nat, e: Endianness)
    requires
        forall|i: int| 0 <= i < elems.len() ==> (#[trigger] elems[i]) < pow2(8 * n),
    ensures
        array_bytes(elems, n, e).len() == elems.len() * n,
        forall|i: int|
            0 <= i < elems.len() ==> #[trigger] uint_value(
                array_bytes(elems, n, e).subrange(i * n, (i + 1) * n),
                e,
            ) == elems[i],
    decreases elems.len(),
{
    if elems.len() > 0 {
        let k = elems.len() - 1;
        let front = elems.drop_last();
        lemma_array_round_trip(front, n, e);
        assert(elems[k] < pow2(8 * n));
        lemma_uint_round_trip(elems[k] as nat, n, e);
        let a = array_bytes(front, n, e);
        let b = uint_bytes(elems.last() as nat, n, e);
        assert(k * n + n == elems.len() * n) by (nonlinear_arith)
            requires
                k == elems.len() - 1,
        ;
        assert forall|i: int| 0 <= i < elems.len() implies #[trigger] uint_value(
            array_bytes(elems, n, e).subrange(i * n, (i + 1) * n),
            e,
        ) == elems[i] by {
            assert((i + 1) * n == i * n + n) by (nonlinear_arith);
            if i < k {
                assert((i + 1) * n <= k * n) by (nonlinear_arith)
                    requires
                        i < k,
                ;
                assert(0 <= i * n) by (nonlinear_arith)
                    requires
                        0 <= i,
                ;
                assert((a + b).subrange(i * n, (i + 1) * n) =~= a.subrange(i * n, (i + 1) * n));
                assert(front[i] == elems[i]);
            } else {
                assert((a + b).subrange(i * n, (i + 1) * n) =~= b);
            }
        }
    }
}

/// Appends each element of `elems` as an integer of `nbytes` bytes in byte
/// order `e`. On an element that does not fit, names the first such element
/// and writes nothing.
pub fn encode_array(out: &mut Vec<u8>, elems: &Vec<u64>, nbytes: usize, e: Endianness) -> (r:
    Result<(), EncodeError>)
    requires
        1 <= nbytes <= 8,
    ensures
        r is Ok <==> forall|i: int| 0 <= i < elems@.len() ==> (#[trigger] elems@[i]) < pow2(
            8 * nbytes as nat,
        ),
        r is Ok ==> final(out)@ == old(out)@ + array_bytes(elems@, nbytes as nat, e),
        r matches Err(EncodeError::ValueTooLarge { index, value, max }) ==> {
            &&& final(out)@ == old(out)@
            &&& index < elems@.len()
            &&& value == elems@[index as int]
            &&& value > max
            &&& max as nat == pow2(8 * nbytes as nat) - 1
            &&& forall|j: int| 0 <= j < index ==> (#[trigger] elems@[j]) <= max
        },
{
    let max = crate::width::mask_bits(8 * nbytes);
    let n = elems.len();
    let mut i: usize = 0;
    while i < n
        invariant
            n == elems.len(),
            i <= n,
            max as nat == pow2(8 * nbytes as nat) - 1,
            forall|j: int| 0 <= j < i ==> (#[trigger] elems@[j]) <= max,
        decreases n - i,
    {
        if elems[i] > max {
            return Err(EncodeError::ValueTooLarge { index: i, value: elems[i], max });
        }
        i = i + 1;
    }
    let ghost start = out@;
    let mut k: usize = 0;
    while k < n
        invariant
            n == elems.len(),
            k <= n,
            1 <= nbytes <= 8,
            max as nat == pow2(8 * nbytes as nat) - 1,
            forall|j: int| 0 <= j < n ==> (#[trigger] elems@[j]) <= max,
            out@ == start + array_bytes(elems@.subrange(0, k as int), nbytes as nat, e),
        decreases n - k,
    {
        proof {
            assert(elems@.subrange(0, k + 1).drop_last() =~= elems@.subrange(0, k as int));
            assert(elems@[k as int] <= max);
        }
        put_uint(out, elems[k], nbytes, e);
        proof {
            assert(out@ =~= start + array_bytes(elems@.subrange(0, k + 1), nbytes as nat, e));
        }
        k = k + 1;
    }
    proof {
        assert(elems@.subrange(0, n as int) =~= elems@);
    }
    Ok(())
}

/// Decodes an array that takes `size` bytes at `pos`, made of integers of
/// `nbytes` bytes in byte order `e`. Fails when `size` is not a whole number
/// of elements, else when fewer than `size` bytes remain.
pub fn decode_array(bytes: &[u8], pos: usize, size: usize, nbytes: usize, e: Endianness) -> (r:
    Result<Vec<u64>, DecodeError>)
    requires
        pos <= bytes@.len(),
        1 <= nbytes <= 8,
    ensures
        r is Ok <==> size % nbytes == 0 && size <= bytes@.len() - pos,
        size % nbytes != 0 ==> r == Err::<Vec<u64>, DecodeError>(
            DecodeError::InvalidArraySize { size, element: nbytes },
        ),
        size % nbytes == 0 && size > bytes@.len() - pos ==> r == Err::<Vec<u64>, DecodeError>(
            DecodeError::InsufficientInput { wanted: size, got: (bytes@.len() - pos) as usize },
        ),
        r matches Ok(vs) ==> {
            &&& vs@.len() * nbytes == size
            &&& forall|i: int|
                0 <= i < vs@.len() ==> #[trigger] vs@[i] as nat == uint_value(
                    bytes@.subrange(pos + i * nbytes, pos + (i + 1) * nbytes),
                    e,
                )
        },
{
    if size % nbytes != 0 {
        return Err(DecodeError::InvalidArraySize { size, element: nbytes });
    }
    check_remaining(bytes, pos, size)?;
    let count = size / nbytes;
    let len = bytes.len();
    let mut vs: Vec<u64> = Vec::new();
    let mut i: usize = 0;
    while i < count
        invariant
            i <= count,
            count == size / nbytes,
            size % nbytes == 0,
            1 <= nbytes <= 8,
            pos + size <= bytes@.len(),
            len == bytes@.len(),
            vs@.len() == i,
            forall|j: int|
                0 <= j < i ==> #[trigger] vs@[j] as nat == uint_value(
                    bytes@.subrange(pos + j * nbytes, pos + (j + 1) * nbytes),
                    e,
                ),
        decreases count - i,
    {
        proof {
            assert((i + 1) * nbytes <= count * nbytes) by (nonlinear_arith)
                requires
                    i < count,
                    nbytes >= 1,
            ;
            assert(count * nbytes == size) by (nonlinear_arith)
                requires
                    count == size / nbytes,
                    size % nbytes == 0,
                    nbytes >= 1,
            ;
            assert((i + 1) * nbytes == i * nbytes + nbytes) by (nonlinear_arith);
        }
        let v = get_uint(bytes, pos + i * nbytes, nbytes, e);
        vs.push(v);
        i = i + 1;
    }
    proof {
        assert(count * nbytes == size) by (nonlinear_arith)
            requires
                count == size / nbytes,
                size % nbytes == 0,
                nbytes >= 1,
        ;
    }
    Ok(vs)
}

/// The value bound to a packet's payload at encode time.
#[derive(Debug)]
pub enum ChildData {
    /// A declared child packet, with the bytes its own encoder produced.
    Child { id: String, bytes: Vec<u8> },
    /// Raw bytes, for a payload that matches no declared child.
    Payload { bytes: Vec<u8> },
    /// No payload.
    Empty,
}

/// Bytes written for a payload: exactly the child's own bytes, or the raw
/// bytes, with nothing added.
pub open spec fn payload_bytes(c: ChildData) -> Seq<u8> {
    match c {
        ChildData::Child { bytes, .. } => bytes@,
        ChildData::Payload { bytes } => bytes@,
        ChildData::Empty => Seq::empty(),
    }
}

/// Appends `bytes` to `out`.
pub fn write_raw(out: &mut Vec<u8>, bytes: &Vec<u8>)
    ensures
        final(out)@ == old(out)@ + bytes@,
{
    let ghost start = out@;
    let mut i: usize = 0;
    while i < bytes.len()
        invariant
            i <= bytes.len(),
            out@ == start + bytes@.subrange(0, i as int),
        decreases bytes.len() - i,
    {
        out.push(bytes[i]);
        proof {
            assert(out@ =~= start + bytes@.subrange(0, i + 1));
        }
        i = i + 1;
    }
    proof {
        assert(bytes@.subrange(0, bytes.len() as int) =~= bytes@);
    }
}

/// Writes the payload bound to a packet: the child's bytes, the raw bytes,
/// or nothing.
pub fn write_payload(out: &mut Vec<u8>, child: &ChildData)
    ensures
        final(out)@ == old(out)@ + payload_bytes(*child),
{
    match child {
        ChildData::Child { bytes, .. } => write_raw(out, bytes),
        ChildData::Payload { bytes } => write_raw(out, bytes),
        ChildData::Empty => {
            assert(old(out)@ + Seq::<u8>::empty() =~= old(out)@);
        },
    }
}

} // verus!
