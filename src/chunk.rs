//! Packing of consecutive sub-byte fields into one byte-aligned chunk, and
//! the inverse extraction. The first field of a chunk occupies its most
//! significant bits.
use crate::width::{
    get_uint, lemma_uint_round_trip, put_uint, uint_bytes, uint_value, Endianness,
};
use vstd::arithmetic::div_mod::{
    lemma_div_denominator, lemma_fundamental_div_mod_converse_div,
    lemma_fundamental_div_mod_converse_mod,
};
use vstd::arithmetic::power2::{
    lemma2_to64, lemma2_to64_rest, lemma_pow2_adds, lemma_pow2_pos, lemma_pow2_strictly_increases,
    pow2,
};
use vstd::bits::{lemma_u64_pow2_no_overflow, lemma_u64_shl_is_mul, lemma_u64_shr_is_div};
use vstd::prelude::*;

verus! {

/// Sum of the widths of a run of fields.
pub open spec fn total_width(ws: Seq<usize>) -> nat
    decreases ws.len(),
{
    if ws.len() == 0 {
        0
    } else {
        total_width(ws.drop_last()) + ws.last() as nat
    }
}

/// Number of bits that lie below field `i` in its chunk.
pub open spec fn bits_below(ws: Seq<usize>, i: int) -> nat {
    total_width(ws.subrange(i + 1, ws.len() as int))
}

/// The chunk integer holding `vs`, the first value in the most significant bits.
pub open spec fn packed(vs: Seq<u64>, ws: Seq<usize>) -> nat
    decreases vs.len(),
{
    if vs.len() == 0 || ws.len() == 0 {
        0
    } else {
        packed(vs.drop_last(), ws.drop_last()) * pow2(ws.last() as nat) + vs.last() as nat
    }
}

/// Field `i` of a chunk integer.
pub open spec fn field_value(chunk: nat, ws: Seq<usize>, i: int) -> nat {
    (chunk / pow2(bits_below(ws, i))) % pow2(ws[i] as nat)
}

/// Every value fits in its field.
pub open spec fn fits(vs: Seq<u64>, ws: Seq<usize>) -> bool {
    &&& vs.len() == ws.len()
    &&& forall|i: int| 0 <= i < vs.len() ==> (#[trigger] vs[i]) < pow2(ws[i] as nat)
}

/// A chunk layout: fields of 1 to 64 bits whose widths add up to a positive
/// multiple of eight, at most 64.
pub open spec fn valid_chunk(ws: Seq<usize>) -> bool {
    &&& ws.len() >= 1
    &&& forall|i: int| 0 <= i < ws.len() ==> 1 <= #[trigger] ws[i] <= 64
    &&& total_width(ws) % 8 == 0
    &&& total_width(ws) <= 64
}

/// Number of bytes of a chunk.
pub open spec fn chunk_bytes(ws: Seq<usize>) -> nat {
    total_width(ws) / 8
}

proof fn lemma_total_prefix(ws: Seq<usize>, i: int)
    requires
        0 <= i <= ws.len(),
    ensures
        total_width(ws.subrange(0, i)) <= total_width(ws),
    decreases ws.len(),
{
    if i < ws.len() {
        lemma_total_prefix(ws.drop_last(), i);
        assert(ws.drop_last().subrange(0, i) =~= ws.subrange(0, i));
    } else {
        assert(ws.subrange(0, i) =~= ws);
    }
}

proof fn lemma_total_positive(ws: Seq<usize>)
    requires
        ws.len() >= 1,
        forall|i: int| 0 <= i < ws.len() ==> 1 <= #[trigger] ws[i],
    ensures
        total_width(ws) >= ws.len(),
    decreases ws.len(),
{
    if ws.len() > 1 {
        lemma_total_positive(ws.drop_last());
    }
}

/// The packed value fits in the total width of the fields.
pub proof fn lemma_packed_bound(vs: Seq<u64>, ws: Seq<usize>)
    requires
        fits(vs, ws),
    ensures
        packed(vs, ws) < pow2(total_width(ws)),
    decreases vs.len(),
{
    lemma_pow2_pos(total_width(ws));
    if vs.len() > 0 {
        let vs2 = vs.drop_last();
        let ws2 = ws.drop_last();
        assert(fits(vs2, ws2)) by {
            assert forall|i: int| 0 <= i < vs2.len() implies (#[trigger] vs2[i]) < pow2(
                ws2[i] as nat,
            ) by {
                assert(vs[i] < pow2(ws[i] as nat));
            }
        }
        lemma_packed_bound(vs2, ws2);
        let a = packed(vs2, ws2);
        let p = pow2(ws.last() as nat);
        let q = pow2(total_width(ws2));
        let v = vs.last() as nat;
        assert(v < p) by {
            assert(vs[vs.len() - 1] < pow2(ws[vs.len() - 1] as nat));
        }
        lemma_pow2_adds(total_width(ws2), ws.last() as nat);
        assert(a * p + v < q * p) by (nonlinear_arith)
            requires
                a < q,
                v < p,
        ;
    }
}

/// Extracting field `i` from the packed chunk gives back the `i`-th value.
pub proof fn lemma_field_of_packed(vs: Seq<u64>, ws: Seq<usize>, i: int)
    requires
        fits(vs, ws),
        0 <= i < vs.len(),
    ensures
        field_value(packed(vs, ws), ws, i) == vs[i],
    decreases vs.len(),
{
    let n = vs.len() as int;
    let vs2 = vs.drop_last();
    let ws2 = ws.drop_last();
    let w = ws.last() as nat;
    let p = pow2(w);
    let a = packed(vs2, ws2);
    let v = vs.last() as nat;
    let x = packed(vs, ws);
    lemma_pow2_pos(w);
    assert(v < p) by {
        assert(vs[n - 1] < pow2(ws[n - 1] as nat));
    }
    assert(x == a * p + v);
    lemma_fundamental_div_mod_converse_div(x as int, p as int, a as int, v as int);
    lemma_fundamental_div_mod_converse_mod(x as int, p as int, a as int, v as int);
    if i == n - 1 {
        assert(ws.subrange(i + 1, n) =~= Seq::<usize>::empty());
        assert(pow2(0) == 1) by {
            lemma2_to64();
        }
        assert(x / 1 == x);
    } else {
        assert(fits(vs2, ws2)) by {
            assert forall|k: int| 0 <= k < vs2.len() implies (#[trigger] vs2[k]) < pow2(
                ws2[k] as nat,
            ) by {
                assert(vs[k] < pow2(ws[k] as nat));
            }
        }
        lemma_field_of_packed(vs2, ws2, i);
        let b2 = bits_below(ws2, i);
        assert(ws.subrange(i + 1, n).drop_last() =~= ws2.subrange(i + 1, n - 1));
        assert(bits_below(ws, i) == b2 + w);
        lemma_pow2_adds(w, b2);
        lemma_pow2_pos(b2);
        lemma_div_denominator(x as int, p as int, pow2(b2) as int);
        assert(x / pow2(bits_below(ws, i)) == a / pow2(b2));
    }
}

/// A chunk's bytes, read back in the same byte order, give back every field.
pub proof fn lemma_chunk_round_trip(vs: Seq<u64>, ws: Seq<usize>, e: Endianness)
    requires
        valid_chunk(ws),
        fits(vs, ws),
    ensures
        forall|i: int|
            0 <= i < vs.len() ==> #[trigger] field_value(
                uint_value(uint_bytes(packed(vs, ws), chunk_bytes(ws), e), e),
                ws,
                i,
            ) == vs[i],
{
    lemma_packed_bound(vs, ws);
    assert(8 * chunk_bytes(ws) == total_width(ws));
    lemma_uint_round_trip(packed(vs, ws), chunk_bytes(ws), e);
    assert forall|i: int| 0 <= i < vs.len() implies #[trigger] field_value(
        uint_value(uint_bytes(packed(vs, ws), chunk_bytes(ws), e), e),
        ws,
        i,
    ) == vs[i] by {
        lemma_field_of_packed(vs, ws, i);
    }
}

/// Within a chunk, giving one field a new value that fits leaves every other
/// field's decoded value unchanged.
pub proof fn lemma_chunk_isolation(vs: Seq<u64>, ws: Seq<usize>, j: int, x: u64, e: Endianness)
    requires
        valid_chunk(ws),
        fits(vs, ws),
        0 <= j < vs.len(),
        x < pow2(ws[j] as nat),
    ensures
        forall|i: int|
            0 <= i < vs.len() && i != j ==> #[trigger] field_value(
                uint_value(uint_bytes(packed(vs.update(j, x), ws), chunk_bytes(ws), e), e),
                ws,
                i,
            ) == field_value(uint_value(uint_bytes(packed(vs, ws), chunk_bytes(ws), e), e), ws, i),
{
    let vs2 = vs.update(j, x);
    assert(fits(vs2, ws)) by {
        assert forall|i: int| 0 <= i < vs2.len() implies (#[trigger] vs2[i]) < pow2(
            ws[i] as nat,
        ) by {
            if i != j {
                assert(vs[i] < pow2(ws[i] as nat));
            }
        }
    }
    lemma_chunk_round_trip(vs, ws, e);
    lemma_chunk_round_trip(vs2, ws, e);
    assert forall|i: int| 0 <= i < vs.len() && i != j implies #[trigger] field_value(
        uint_value(uint_bytes(packed(vs2, ws), chunk_bytes(ws), e), e),
        ws,
        i,
    ) == field_value(uint_value(uint_bytes(packed(vs, ws), chunk_bytes(ws), e), e), ws, i) by {
        assert(vs2[i] == vs[i]);
    }
}

/// Packs `values` into one integer, the first value in the most significant bits.
pub fn pack_chunk(values: &Vec<u64>, widths: &Vec<usize>) -> (r: u64)
    requires
        valid_chunk(widths@),
        fits(values@, widths@),
    ensures
        r as nat == packed(values@, widths@),
{
    let n = values.len();
    let mut acc: u64 = 0;
    let mut i: usize = 0;
    proof {
        lemma2_to64();
        lemma2_to64_rest();
        lemma_total_positive(widths@);
    }
    while i < n
        invariant
            n == values.len(),
            0 <= i <= n,
            valid_chunk(widths@),
            fits(values@, widths@),
            acc as nat == packed(values@.subrange(0, i as int), widths@.subrange(0, i as int)),
            acc < pow2(total_width(widths@.subrange(0, i as int))),
            pow2(64) == 0x1_0000_0000_0000_0000,
            total_width(widths@) >= widths@.len(),
        decreases n - i,
    {
        let w = widths[i];
        let v = values[i];
        proof {
            let ws_i = widths@.subrange(0, i as int);
            let ws_n = widths@.subrange(0, i + 1);
            let vs_n = values@.subrange(0, i + 1);
            assert(ws_n.drop_last() =~= ws_i);
            assert(vs_n.drop_last() =~= values@.subrange(0, i as int));
            lemma_total_prefix(widths@, i + 1);
            assert(fits(vs_n, ws_n)) by {
                assert forall|k: int| 0 <= k < vs_n.len() implies (#[trigger] vs_n[k]) < pow2(
                    ws_n[k] as nat,
                ) by {
                    assert(values@[k] < pow2(widths@[k] as nat));
                }
            }
            lemma_packed_bound(vs_n, ws_n);
            assert(ws_n.last() == w);
            assert(vs_n.last() == v);
            assert(packed(vs_n, ws_n) == packed(values@.subrange(0, i as int), ws_i) * pow2(
                w as nat,
            ) + v);
            assert(v < pow2(w as nat)) by {
                assert(values@[i as int] < pow2(widths@[i as int] as nat));
            }
        }
        if i == 0 {
            proof {
                assert(widths@.subrange(0, 0) =~= Seq::<usize>::empty());
                assert(values@.subrange(0, 0) =~= Seq::<u64>::empty());
                let pw = pow2(w as nat);
                assert(0 * pw == 0) by (nonlinear_arith);
            }
            acc = v;
        } else {
            proof {
                let t = total_width(widths@.subrange(0, i as int));
                assert(widths@.subrange(0, i as int).len() == i);
                lemma_total_positive(widths@.subrange(0, i as int));
                assert(t >= 1);
                assert(t + w <= 64);
                assert(w < 64);
                lemma_pow2_adds(t, w as nat);
                lemma_pow2_pos(w as nat);
                if t + w < 64 {
                    lemma_pow2_strictly_increases((t + w) as nat, 64);
                }
                let p = pow2(w as nat);
                let q = pow2(t);
                assert(acc * p + v < q * p) by (nonlinear_arith)
                    requires
                        acc < q,
                        v < p,
                ;
                assert(acc * p <= u64::MAX) by (nonlinear_arith)
                    requires
                        acc < q,
                        q * p <= 0x1_0000_0000_0000_0000,
                        v < p,
                ;
                lemma_u64_shl_is_mul(acc, w as u64);
            }
            acc = (acc << (w as u64)) + v;
        }
        i = i + 1;
    }
    proof {
        assert(values@.subrange(0, n as int) =~= values@);
        assert(widths@.subrange(0, n as int) =~= widths@);
    }
    acc
}

pub proof fn lemma_total_split(ws: Seq<usize>, k: int)
    requires
        0 <= k <= ws.len(),
    ensures
        total_width(ws) == total_width(ws.subrange(0, k)) + total_width(
            ws.subrange(k, ws.len() as int),
        ),
    decreases ws.len(),
{
    if k == ws.len() {
        assert(ws.subrange(0, k) =~= ws);
        assert(ws.subrange(k, ws.len() as int) =~= Seq::<usize>::empty());
    } else {
        lemma_total_split(ws.drop_last(), k);
        assert(ws.drop_last().subrange(0, k) =~= ws.subrange(0, k));
        assert(ws.subrange(k, ws.len() as int).drop_last() =~= ws.drop_last().subrange(
            k,
            ws.len() - 1,
        ));
    }
}

/// Sum of the widths of the first `k` fields.
fn prefix_width(widths: &Vec<usize>, k: usize) -> (r: usize)
    requires
        valid_chunk(widths@),
        k <= widths.len(),
    ensures
        r == total_width(widths@.subrange(0, k as int)),
{
    let mut acc: usize = 0;
    let mut j: usize = 0;
    while j < k
        invariant
            j <= k <= widths.len(),
            valid_chunk(widths@),
            acc == total_width(widths@.subrange(0, j as int)),
        decreases k - j,
    {
        proof {
            assert(widths@.subrange(0, j + 1).drop_last() =~= widths@.subrange(0, j as int));
            lemma_total_prefix(widths@, j + 1);
        }
        acc = acc + widths[j];
        j = j + 1;
    }
    acc
}

/// Field `i` of the chunk integer `chunk`.
pub fn unpack_field(chunk: u64, widths: &Vec<usize>, i: usize) -> (r: u64)
    requires
        valid_chunk(widths@),
        i < widths.len(),
    ensures
        r as nat == field_value(chunk as nat, widths@, i as int),
{
    let n = widths.len();
    let total = prefix_width(widths, n);
    let upto = prefix_width(widths, i + 1);
    let w = widths[i];
    proof {
        assert(widths@.subrange(0, n as int) =~= widths@);
        lemma_total_split(widths@, i + 1);
        assert(widths@.subrange(0, i + 1).drop_last() =~= widths@.subrange(0, i as int));
        assert(upto >= w);
    }
    let below = total - upto;
    proof {
        lemma2_to64();
        lemma2_to64_rest();
        lemma_u64_shr_is_div(chunk, below as u64);
    }
    let x = chunk >> (below as u64);
    if w == 64 {
        proof {
            assert(below == 0);
            assert(x / 1 == x);
            vstd::arithmetic::div_mod::lemma_small_mod(x as nat, pow2(64));
        }
        x
    } else {
        proof {
            lemma_u64_pow2_no_overflow(w as nat);
            lemma_u64_shl_is_mul(1u64, w as u64);
            lemma_pow2_pos(w as nat);
        }
        x % (1u64 << (w as u64))
    }
}

/// Failure of a generated encoder: a value does not fit in its field.
#[derive(Clone, Copy, Debug, PartialEq, Eq, Structural)]
pub enum EncodeError {
    ValueTooLarge { index: usize, value: u64, max: u64 },
}

/// Failure of a generated decoder.
#[derive(Clone, Copy, Debug, PartialEq, Eq, Structural)]
pub enum DecodeError {
    /// Fewer bytes remain than the next read needs.
    InsufficientInput { wanted: usize, got: usize },
    /// A decoded array size that is not a whole number of elements.
    InvalidArraySize { size: usize, element: usize },
}

/// Index of the first value that does not fit in its field, if any.
pub open spec fn first_misfit(vs: Seq<u64>, ws: Seq<usize>, k: int) -> bool {
    &&& 0 <= k < vs.len()
    &&& vs[k] >= pow2(ws[k] as nat)
    &&& forall|j: int| 0 <= j < k ==> (#[trigger] vs[j]) < pow2(ws[j] as nat)
}

/// Range-checks `values` against `widths`, then appends the chunk that holds
/// them to `out` as one integer of the chunk's byte length in byte order `e`.
/// On a value that does not fit, names the first such value and writes nothing.
pub fn encode_chunk(
    out: &mut Vec<u8>,
    values: &Vec<u64>,
    widths: &Vec<usize>,
    e: Endianness,
) -> (r: Result<(), EncodeError>)
    requires
        valid_chunk(widths@),
        values.len() == widths.len(),
    ensures
        r is Ok <==> fits(values@, widths@),
        r is Ok ==> final(out)@ == old(out)@ + uint_bytes(
            packed(values@, widths@),
            chunk_bytes(widths@),
            e,
        ),
        r matches Err(EncodeError::ValueTooLarge { index, value, max }) ==> {
            &&& final(out)@ == old(out)@
            &&& first_misfit(values@, widths@, index as int)
            &&& value == values@[index as int]
            &&& max as nat == pow2(widths@[index as int] as nat) - 1
        },
{
    let n = values.len();
    let mut i: usize = 0;
    while i < n
        invariant
            n == values.len() == widths.len(),
            i <= n,
            valid_chunk(widths@),
            forall|j: int| 0 <= j < i ==> (#[trigger] values@[j]) < pow2(widths@[j] as nat),
        decreases n - i,
    {
        let w = widths[i];
        let max = crate::width::mask_bits(w);
        if values[i] > max {
            return Err(EncodeError::ValueTooLarge { index: i, value: values[i], max });
        }
        i = i + 1;
    }
    let value = pack_chunk(values, widths);
    let total = prefix_width(widths, n);
    proof {
        assert(widths@.subrange(0, n as int) =~= widths@);
        lemma_packed_bound(values@, widths@);
        lemma_total_positive(widths@);
    }
    put_uint(out, value, total / 8, e);
    Ok(())
}

/// Checks that at least `wanted` bytes remain after position `pos`.
pub fn check_remaining(bytes: &[u8], pos: usize, wanted: usize) -> (r: Result<(), DecodeError>)
    requires
        pos <= bytes@.len(),
    ensures
        r is Ok <==> wanted <= bytes@.len() - pos,
        r is Err ==> r == Err::<(), DecodeError>(
            DecodeError::InsufficientInput { wanted, got: (bytes@.len() - pos) as usize },
        ),
{
    let got = bytes.len() - pos;
    if got < wanted {
        Err(DecodeError::InsufficientInput { wanted, got })
    } else {
        Ok(())
    }
}

/// Bounds-checks, reads the chunk that starts at `pos` in byte order `e`, and
/// extracts each of its fields.
pub fn decode_chunk(bytes: &[u8], pos: usize, widths: &Vec<usize>, e: Endianness) -> (r: Result<
    Vec<u64>,
    DecodeError,
>)
    requires
        valid_chunk(widths@),
        pos <= bytes@.len(),
    ensures
        r is Ok <==> pos + chunk_bytes(widths@) <= bytes@.len(),
        r is Err ==> r == Err::<Vec<u64>, DecodeError>(
            DecodeError::InsufficientInput {
                wanted: chunk_bytes(widths@) as usize,
                got: (bytes@.len() - pos) as usize,
            },
        ),
        r matches Ok(vs) ==> {
            &&& vs@.len() == widths@.len()
            &&& forall|i: int|
                0 <= i < vs@.len() ==> #[trigger] vs@[i] as nat == field_value(
                    uint_value(
                        bytes@.subrange(pos as int, pos + chunk_bytes(widths@)),
                        e,
                    ),
                    widths@,
                    i,
                )
        },
{
    let n = widths.len();
    let total = prefix_width(widths, n);
    proof {
        assert(widths@.subrange(0, n as int) =~= widths@);
        lemma_total_positive(widths@);
    }
    let size = total / 8;
    check_remaining(bytes, pos, size)?;
    let chunk = get_uint(bytes, pos, size, e);
    let mut vs: Vec<u64> = Vec::new();
    let mut i: usize = 0;
    while i < n
        invariant
            n == widths.len(),
            i <= n,
            valid_chunk(widths@),
            vs@.len() == i,
            forall|j: int|
                0 <= j < i ==> #[trigger] vs@[j] as nat == field_value(chunk as nat, widths@, j),
        decreases n - i,
    {
        let f = unpack_field(chunk, widths, i);
        vs.push(f);
        i = i + 1;
    }
    Ok(vs)
}

} // verus!
