use crate::bs_read::{drop_bits, take_bits, ByteStreamReadBuffer};
use crate::error::{Error, Invalid, Unimplemented};
use crate::loader::{bit_width, bits_for};
use crate::record::RecordValue;
use std::collections::VecDeque;
use vstd::prelude::*;

verus! {

/// All values of `w` bits that the bit string `v` of `n` bits holds, in order.
pub open spec fn unpack_all(v: nat, n: nat, w: nat) -> Seq<nat>
    decreases n,
{
    if w == 0 || n < w {
        Seq::empty()
    } else {
        seq![take_bits(v, w)] + unpack_all(drop_bits(v, w), (n - w) as nat, w)
    }
}

/// Whether a raw value is valid for the unpacker `kind` over `[min, max]`.
pub open spec fn raw_valid(kind: u8, min: i64, max: i64, raw: nat) -> bool {
    kind < 2 || raw <= max - min
}

/// Extracts values of `bits` bits until the stream runs short, mapping each with `wrap`, and
/// stops at the first integer above `max`.
fn unpack_with(
    stream: &mut ByteStreamReadBuffer,
    bits: u32,
    queue: &mut VecDeque<RecordValue>,
    kind: u8,
    min: i64,
    max: i64,
) -> (r: Result<(), Error>)
    requires
        old(stream).wf(),
        1 <= bits <= 64,
        kind <= 3,
        kind >= 2 ==> min < max,
    ensures
        final(stream).wf(),
        ({
            let raws = unpack_all(old(stream).bits(), old(stream).available_bits(), bits as nat);
            match r {
                Ok(_) => {
                    &&& forall|i: int| 0 <= i < raws.len() ==> raw_valid(kind, min, max, #[trigger] raws[i])
                    &&& final(stream).available_bits() == old(stream).available_bits() % bits as nat
                    &&& final(queue)@ == old(queue)@ + raws.map_values(|raw: nat| wrap(kind, min, raw))
                },
                Err(e) => e == Error::Invalid(Invalid::ValueOutOfRange) && exists|i: int|
                    0 <= i < raws.len() && !raw_valid(kind, min, max, #[trigger] raws[i]),
            }
        }),
{
    let ghost v0 = stream.bits();
    let ghost n0 = stream.available_bits();
    let ghost q0 = queue@;
    let ghost f = |raw: nat| wrap(kind, min, raw);
    let ghost mut done: Seq<nat> = Seq::empty();
    loop
        invariant
            stream.wf(),
            1 <= bits <= 64,
            kind <= 3,
            kind >= 2 ==> min < max,
            f == (|raw: nat| wrap(kind, min, raw)),
            v0 == old(stream).bits(),
            n0 == old(stream).available_bits(),
            q0 == old(queue)@,
            n0 % bits as nat == stream.available_bits() % bits as nat,
            unpack_all(v0, n0, bits as nat) == done + unpack_all(
                stream.bits(),
                stream.available_bits(),
                bits as nat,
            ),
            queue@ == q0 + done.map_values(f),
            forall|i: int| 0 <= i < done.len() ==> raw_valid(kind, min, max, #[trigger] done[i]),
        decreases stream.available_bits(),
    {
        let ghost v = stream.bits();
        let ghost n = stream.available_bits();
        match stream.extract_int(bits) {
            None => {
                proof {
                    assert(unpack_all(v, n, bits as nat) =~= Seq::<nat>::empty());
                    assert(done + Seq::<nat>::empty() =~= done);
                    assert(unpack_all(v0, n0, bits as nat) == done);
                    vstd::arithmetic::div_mod::lemma_small_mod(n, bits as nat);
                }
                return Ok(());
            },
            Some(raw) => {
                proof {
                    assert(unpack_all(v, n, bits as nat) == seq![raw as nat] + unpack_all(
                        stream.bits(),
                        stream.available_bits(),
                        bits as nat,
                    ));
                    assert(unpack_all(v0, n0, bits as nat)[done.len() as int] == raw);
                }
                let value = if kind == 0 {
                    RecordValue::Double(raw)
                } else if kind == 1 {
                    RecordValue::Single(raw as u32)
                } else {
                    if raw > (max as i128 - min as i128) as u64 {
                        proof {
                            let raws = unpack_all(v0, n0, bits as nat);
                            assert(!raw_valid(kind, min, max, raws[done.len() as int]));
                        }
                        return Err(Error::Invalid(Invalid::ValueOutOfRange));
                    }
                    let x = (min as i128 + raw as i128) as i64;
                    if kind == 2 {
                        RecordValue::Integer(x)
                    } else {
                        RecordValue::ScaledInteger(x)
                    }
                };
                let ghost before = done;
                queue.push_back(value);
                proof {
                    let rest = unpack_all(stream.bits(), stream.available_bits(), bits as nat);
                    done = done.push(raw as nat);
                    assert(before + (seq![raw as nat] + rest) =~= done + rest);
                    assert(done.map_values(f) =~= before.map_values(f).push(f(raw as nat)));
                    vstd::arithmetic::div_mod::lemma_mod_sub_multiples_vanish(n as int, bits as int);
                }
            },
        }
    }
}

/// The value that the unpackers make of a raw value.
pub open spec fn wrap(kind: u8, min: i64, raw: nat) -> RecordValue {
    if kind == 0 {
        RecordValue::Double(raw as u64)
    } else if kind == 1 {
        RecordValue::Single(raw as u32)
    } else if kind == 2 {
        RecordValue::Integer((min + raw) as i64)
    } else {
        RecordValue::ScaledInteger((min + raw) as i64)
    }
}

/// Checks that the unread bits hold whole values of `bits` bits.
fn check_whole(stream: &ByteStreamReadBuffer, bits: u32) -> (r: Result<(), Error>)
    requires
        stream.wf(),
        bits == 32 || bits == 64,
    ensures
        r is Ok <==> stream.available_bits() % bits as nat == 0,
        r is Err ==> r == Err::<(), Error>(Error::Invalid(Invalid::PacketLength)),
{
    if stream.available() % bits as u128 != 0 {
        return Err(Error::Invalid(Invalid::PacketLength));
    }
    Ok(())
}

/// Unpacks all 64-bit floats of the stream, as bit patterns, into `queue`; the stream must
/// hold whole values.
pub fn unpack_doubles(stream: &mut ByteStreamReadBuffer, queue: &mut VecDeque<RecordValue>) -> (r: Result<
    (),
    Error,
>)
    requires
        old(stream).wf(),
    ensures
        final(stream).wf(),
        match r {
            Ok(_) => old(stream).available_bits() % 64 == 0 && final(stream).available_bits() == 0
                && final(queue)@ == old(queue)@ + unpack_all(
                old(stream).bits(),
                old(stream).available_bits(),
                64,
            ).map_values(|raw: nat| RecordValue::Double(raw as u64)),
            Err(e) => old(stream).available_bits() % 64 != 0 && e == Error::Invalid(
                Invalid::PacketLength,
            ) && *final(stream) == *old(stream) && final(queue)@ == old(queue)@,
        },
{
    check_whole(stream, 64)?;
    unpack_with(stream, 64, queue, 0, 0, 1)?;
    proof {
        assert(unpack_all(old(stream).bits(), old(stream).available_bits(), 64).map_values(
            |raw: nat| wrap(0, 0, raw),
        ) =~= unpack_all(old(stream).bits(), old(stream).available_bits(), 64).map_values(
            |raw: nat| RecordValue::Double(raw as u64),
        ));
    }
    Ok(())
}

/// Unpacks all 32-bit floats of the stream, as bit patterns, into `queue`; the stream must
/// hold whole values.
pub fn unpack_singles(stream: &mut ByteStreamReadBuffer, queue: &mut VecDeque<RecordValue>) -> (r: Result<
    (),
    Error,
>)
    requires
        old(stream).wf(),
    ensures
        final(stream).wf(),
        match r {
            Ok(_) => old(stream).available_bits() % 32 == 0 && final(stream).available_bits() == 0
                && final(queue)@ == old(queue)@ + unpack_all(
                old(stream).bits(),
                old(stream).available_bits(),
                32,
            ).map_values(|raw: nat| RecordValue::Single(raw as u32)),
            Err(e) => old(stream).available_bits() % 32 != 0 && e == Error::Invalid(
                Invalid::PacketLength,
            ) && *final(stream) == *old(stream) && final(queue)@ == old(queue)@,
        },
{
    check_whole(stream, 32)?;
    unpack_with(stream, 32, queue, 1, 0, 1)?;
    proof {
        assert(unpack_all(old(stream).bits(), old(stream).available_bits(), 32).map_values(
            |raw: nat| wrap(1, 0, raw),
        ) =~= unpack_all(old(stream).bits(), old(stream).available_bits(), 32).map_values(
            |raw: nat| RecordValue::Single(raw as u32),
        ));
    }
    Ok(())
}

/// The width of the integers of `[min, max]` when it can be unpacked: `max > min` and at
/// most 56 bits or exactly 64.
fn int_width(min: i64, max: i64) -> (r: Result<u32, Error>)
    ensures
        match r {
            Ok(b) => min < max && b == bits_for((max - min) as nat) && (1 <= b <= 56 || b == 64),
            Err(e) => (max <= min && e == Error::Invalid(Invalid::IntegerBounds)) || (min < max
                && 56 < bits_for((max - min) as nat) < 64 && e == Error::Unimplemented(
                Unimplemented::IntegerBits(bits_for((max - min) as nat) as u32),
            )),
        },
{
    if max <= min {
        return Err(Error::Invalid(Invalid::IntegerBounds));
    }
    let bits = bit_width((max as i128 - min as i128) as u64);
    if bits > 56 && bits < 64 {
        return Err(Error::Unimplemented(Unimplemented::IntegerBits(bits)));
    }
    proof {
        assert(bits_for((max - min) as nat) >= 1);
    }
    Ok(bits)
}

/// Unpacks all integers of `[min, max]` that the stream holds into `queue`. Values above
/// `max` are invalid.
pub fn unpack_ints(stream: &mut ByteStreamReadBuffer, min: i64, max: i64, queue: &mut VecDeque<
    RecordValue,
>) -> (r: Result<(), Error>)
    requires
        old(stream).wf(),
    ensures
        final(stream).wf(),
        ({
            let w = bits_for((max - min) as nat);
            let raws = unpack_all(old(stream).bits(), old(stream).available_bits(), w);
            match r {
                Ok(_) => {
                    &&& min < max && (1 <= w <= 56 || w == 64)
                    &&& forall|i: int| 0 <= i < raws.len() ==> #[trigger] raws[i] <= max - min
                    &&& final(stream).available_bits() == old(stream).available_bits() % w
                    &&& final(queue)@ == old(queue)@ + raws.map_values(
                        |raw: nat| RecordValue::Integer((min + raw) as i64),
                    )
                },
                Err(e) => (max <= min && e == Error::Invalid(Invalid::IntegerBounds)) || (min < max
                    && 56 < w < 64 && e == Error::Unimplemented(Unimplemented::IntegerBits(w as u32)))
                    || (min < max && (w <= 56 || w == 64) && e == Error::Invalid(Invalid::ValueOutOfRange)
                    && exists|i: int| 0 <= i < raws.len() && #[trigger] raws[i] > max - min),
            }
        }),
{
    let bits = int_width(min, max)?;
    let r = unpack_with(stream, bits, queue, 2, min, max);
    proof {
        let raws = unpack_all(old(stream).bits(), old(stream).available_bits(), bits as nat);
        assert(raws.map_values(|raw: nat| wrap(2, min, raw)) =~= raws.map_values(
            |raw: nat| RecordValue::Integer((min + raw) as i64),
        ));
    }
    r
}

/// Unpacks all scaled integers of `[min, max]` that the stream holds into `queue`. Values above
/// `max` are invalid.
pub fn unpack_scaled_ints(stream: &mut ByteStreamReadBuffer, min: i64, max: i64, queue: &mut VecDeque<
    RecordValue,
>) -> (r: Result<(), Error>)
    requires
        old(stream).wf(),
    ensures
        final(stream).wf(),
        ({
            let w = bits_for((max - min) as nat);
            let raws = unpack_all(old(stream).bits(), old(stream).available_bits(), w);
            match r {
                Ok(_) => {
                    &&& min < max && (1 <= w <= 56 || w == 64)
                    &&& forall|i: int| 0 <= i < raws.len() ==> #[trigger] raws[i] <= max - min
                    &&& final(stream).available_bits() == old(stream).available_bits() % w
                    &&& final(queue)@ == old(queue)@ + raws.map_values(
                        |raw: nat| RecordValue::ScaledInteger((min + raw) as i64),
                    )
                },
                Err(e) => (max <= min && e == Error::Invalid(Invalid::IntegerBounds)) || (min < max
                    && 56 < w < 64 && e == Error::Unimplemented(Unimplemented::IntegerBits(w as u32)))
                    || (min < max && (w <= 56 || w == 64) && e == Error::Invalid(Invalid::ValueOutOfRange)
                    && exists|i: int| 0 <= i < raws.len() && #[trigger] raws[i] > max - min),
            }
        }),
{
    let bits = int_width(min, max)?;
    let r = unpack_with(stream, bits, queue, 3, min, max);
    proof {
        let raws = unpack_all(old(stream).bits(), old(stream).available_bits(), bits as nat);
        assert(raws.map_values(|raw: nat| wrap(3, min, raw)) =~= raws.map_values(
            |raw: nat| RecordValue::ScaledInteger((min + raw) as i64),
        ));
    }
    r
}

} // verus!
