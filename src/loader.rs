use crate::bs_read::{drop_bits, take_bits, ByteStreamReadBuffer};
use crate::bytes::le_nat;
use crate::error::{Error, Invalid, Unimplemented};
use crate::record::{RecordDataType, RecordValue};
use vstd::arithmetic::power2::{lemma2_to64, lemma_pow2_pos, pow2};
use vstd::prelude::*;

verus! {

/// Number of bits needed to write `range`: `ceil(log2(range + 1))`.
pub open spec fn bits_for(range: nat) -> nat
    decreases range,
{
    if range == 0 {
        0
    } else {
        1 + bits_for(range / 2)
    }
}

proof fn lemma_bits_for_bound(r: nat, k: nat)
    requires
        r < pow2(k),
    ensures
        bits_for(r) <= k,
    decreases k,
{
    if r > 0 {
        if k > 0 {
            vstd::arithmetic::power2::lemma_pow2_unfold(k);
            lemma_bits_for_bound(r / 2, (k - 1) as nat);
        } else {
            lemma2_to64();
        }
    }
}

/// Number of bits of `range`.
pub fn bit_width(range: u64) -> (b: u32)
    ensures
        b == bits_for(range as nat),
        b <= 64,
{
    let mut r = range;
    let mut b: u32 = 0;
    proof {
        lemma2_to64();
        lemma_bits_for_bound(range as nat, 64);
    }
    while r > 0
        invariant
            b + bits_for(r as nat) == bits_for(range as nat),
            bits_for(range as nat) <= 64,
        decreases r,
    {
        r = r / 2;
        b = b + 1;
    }
    b
}

/// The span of an integer field.
pub open spec fn int_range(min: i64, max: i64) -> nat {
    (max - min) as nat
}

/// The error that setting up a decoder for values of type `dt` gives, if any.
pub open spec fn type_error(dt: RecordDataType) -> Option<Error> {
    match dt {
        RecordDataType::ScaledInteger { min, max } | RecordDataType::Integer { min, max } => {
            if max <= min {
                Some(Error::Invalid(Invalid::IntegerBounds))
            } else if 56 < bits_for(int_range(min, max)) < 64 {
                Some(Error::Unimplemented(Unimplemented::IntegerBits(bits_for(int_range(min, max)) as u32)))
            } else {
                None
            }
        },
        _ => None,
    }
}

/// Bits taken from the stream for one value of type `dt`.
pub open spec fn width_of(dt: RecordDataType) -> nat {
    match dt {
        RecordDataType::Single => 32,
        RecordDataType::Double => 64,
        RecordDataType::ScaledInteger { min, max } => bits_for(int_range(min, max)),
        RecordDataType::Integer { min, max } => bits_for(int_range(min, max)),
    }
}

/// Whether `raw`, as taken from the stream, is a valid encoding of a value of type `dt`.
pub open spec fn raw_in_range(dt: RecordDataType, raw: nat) -> bool {
    match dt {
        RecordDataType::ScaledInteger { min, max } => raw <= int_range(min, max),
        RecordDataType::Integer { min, max } => raw <= int_range(min, max),
        _ => true,
    }
}

/// The value that the raw bits `raw` encode for type `dt`.
pub open spec fn value_of(dt: RecordDataType, raw: nat) -> RecordValue {
    match dt {
        RecordDataType::Single => RecordValue::Single(raw as u32),
        RecordDataType::Double => RecordValue::Double(raw as u64),
        RecordDataType::ScaledInteger { min, .. } => RecordValue::ScaledInteger((min + raw) as i64),
        RecordDataType::Integer { min, .. } => RecordValue::Integer((min + raw) as i64),
    }
}

/// A value belongs to type `dt`: same kind and, for integers, within `[min, max]`.
pub open spec fn value_fits(dt: RecordDataType, v: RecordValue) -> bool {
    match (dt, v) {
        (RecordDataType::Single, RecordValue::Single(_)) => true,
        (RecordDataType::Double, RecordValue::Double(_)) => true,
        (RecordDataType::ScaledInteger { min, max }, RecordValue::ScaledInteger(x)) => min <= x
            <= max,
        (RecordDataType::Integer { min, max }, RecordValue::Integer(x)) => min <= x <= max,
        _ => false,
    }
}

/// Loads integers of a field, stored as offsets from the minimum in `bits` bits each.
pub struct IntLoader {
    pub min: i64,
    pub max: i64,
    pub bits: u32,
    pub scaled: bool,
    pub stream: ByteStreamReadBuffer,
}

/// Loads 32-bit floats of a field, as their bit patterns.
pub struct F32Loader {
    pub stream: ByteStreamReadBuffer,
}

/// Loads 64-bit floats of a field, as their bit patterns.
pub struct F64Loader {
    pub stream: ByteStreamReadBuffer,
}

/// The loader of one prototype field.
pub enum FieldLoader {
    Int(IntLoader),
    Single(F32Loader),
    Double(F64Loader),
}

impl FieldLoader {
    /// The byte stream of the field.
    pub open spec fn stream(&self) -> ByteStreamReadBuffer {
        match self {
            FieldLoader::Int(l) => l.stream,
            FieldLoader::Single(l) => l.stream,
            FieldLoader::Double(l) => l.stream,
        }
    }

    /// The data type that the loader decodes.
    pub open spec fn data_type(&self) -> RecordDataType {
        match self {
            FieldLoader::Int(l) => if l.scaled {
                RecordDataType::ScaledInteger { min: l.min, max: l.max }
            } else {
                RecordDataType::Integer { min: l.min, max: l.max }
            },
            FieldLoader::Single(_) => RecordDataType::Single,
            FieldLoader::Double(_) => RecordDataType::Double,
        }
    }

    pub open spec fn wf(&self) -> bool {
        &&& self.stream().wf()
        &&& type_error(self.data_type()) is None
        &&& match self {
            FieldLoader::Int(l) => l.min < l.max && l.bits == bits_for(int_range(l.min, l.max)),
            _ => true,
        }
    }

    /// Sets up the loader of a field of type `dt`, with an empty stream.
    pub fn new(dt: RecordDataType) -> (r: Result<Self, Error>)
        ensures
            match r {
                Ok(l) => type_error(dt) is None && l.wf() && l.data_type() == dt && l.stream().bits()
                    == 0 && l.stream().available_bits() == 0,
                Err(e) => type_error(dt) == Some(e),
            },
    {
        match dt {
            RecordDataType::Single => Ok(FieldLoader::Single(F32Loader { stream: ByteStreamReadBuffer::new() })),
            RecordDataType::Double => Ok(FieldLoader::Double(F64Loader { stream: ByteStreamReadBuffer::new() })),
            RecordDataType::ScaledInteger { min, max } => {
                let l = IntLoader::new(min, max, true)?;
                Ok(FieldLoader::Int(l))
            },
            RecordDataType::Integer { min, max } => {
                let l = IntLoader::new(min, max, false)?;
                Ok(FieldLoader::Int(l))
            },
        }
    }

    /// Number of bits of one value.
    pub fn width(&self) -> (r: u32)
        requires
            self.wf(),
        ensures
            r == width_of(self.data_type()),
            1 <= r <= 64,
    {
        match self {
            FieldLoader::Int(l) => {
                proof {
                    assert(l.bits >= 1) by {
                        assert(int_range(l.min, l.max) > 0);
                    }
                    lemma2_to64();
                    lemma_bits_for_bound(int_range(l.min, l.max), 64);
                }
                l.bits
            },
            FieldLoader::Single(_) => 32,
            FieldLoader::Double(_) => 64,
        }
    }

    /// Whether the stream holds the bits of one more value.
    pub fn ready(&self) -> (r: bool)
        requires
            self.wf(),
        ensures
            r == (self.stream().available_bits() >= width_of(self.data_type())),
    {
        let w = self.width();
        match self {
            FieldLoader::Int(l) => l.stream.available() >= w as u128,
            FieldLoader::Single(l) => l.stream.available() >= w as u128,
            FieldLoader::Double(l) => l.stream.available() >= w as u128,
        }
    }

    /// Appends a slice of a packet to the field's stream.
    pub fn append(&mut self, data: Vec<u8>)
        requires
            old(self).wf(),
        ensures
            final(self).wf(),
            final(self).data_type() == old(self).data_type(),
            final(self).stream().bits() == old(self).stream().bits() + pow2(
                old(self).stream().available_bits(),
            ) * le_nat(data@),
            final(self).stream().available_bits() == old(self).stream().available_bits() + 8
                * data@.len(),
    {
        match self {
            FieldLoader::Int(l) => l.stream.append(data),
            FieldLoader::Single(l) => l.stream.append(data),
            FieldLoader::Double(l) => l.stream.append(data),
        }
    }

    /// Drops the unread bits, as at a compressor restart.
    pub fn restart(&mut self)
        requires
            old(self).wf(),
        ensures
            final(self).wf(),
            final(self).data_type() == old(self).data_type(),
            final(self).stream().bits() == 0,
            final(self).stream().available_bits() == 0,
    {
        match self {
            FieldLoader::Int(l) => l.stream = ByteStreamReadBuffer::new(),
            FieldLoader::Single(l) => l.stream = ByteStreamReadBuffer::new(),
            FieldLoader::Double(l) => l.stream = ByteStreamReadBuffer::new(),
        }
    }

    /// Takes the next value from the stream.
    pub fn load(&mut self) -> (r: Result<RecordValue, Error>)
        requires
            old(self).wf(),
            old(self).stream().available_bits() >= width_of(old(self).data_type()),
        ensures
            final(self).wf(),
            final(self).data_type() == old(self).data_type(),
            ({
                let dt = old(self).data_type();
                let raw = take_bits(old(self).stream().bits(), width_of(dt));
                &&& final(self).stream().bits() == drop_bits(old(self).stream().bits(), width_of(dt))
                &&& final(self).stream().available_bits() == old(self).stream().available_bits()
                    - width_of(dt)
                &&& match r {
                    Ok(v) => raw_in_range(dt, raw) && v == value_of(dt, raw) && value_fits(dt, v),
                    Err(e) => !raw_in_range(dt, raw) && e == Error::Invalid(Invalid::ValueOutOfRange),
                }
            }),
    {
        let w = self.width();
        match self {
            FieldLoader::Int(l) => l.load(),
            FieldLoader::Single(l) => {
                proof {
                    lemma2_to64();
                }
                match l.stream.extract_int(w) {
                    Some(raw) => {
                        proof {
                            lemma_pow2_pos(32);
                        }
                        Ok(RecordValue::Single(raw as u32))
                    },
                    None => Err(Error::Read),
                }
            },
            FieldLoader::Double(l) => match l.stream.extract_int(w) {
                Some(raw) => Ok(RecordValue::Double(raw)),
                None => Err(Error::Read),
            },
        }
    }
}

impl IntLoader {
    /// Sets up the loader of an integer field with bounds `[min, max]`.
    pub fn new(min: i64, max: i64, scaled: bool) -> (r: Result<Self, Error>)
        ensures
            match r {
                Ok(l) => l.min == min && l.max == max && l.scaled == scaled && min < max && l.bits
                    == bits_for(int_range(min, max)) && !(56 < l.bits < 64) && l.stream.wf()
                    && l.stream.bits() == 0 && l.stream.available_bits() == 0,
                Err(e) => (max <= min && e == Error::Invalid(Invalid::IntegerBounds)) || (min < max
                    && 56 < bits_for(int_range(min, max)) < 64 && e == Error::Unimplemented(
                    Unimplemented::IntegerBits(bits_for(int_range(min, max)) as u32),
                )),
            },
    {
        if max <= min {
            return Err(Error::Invalid(Invalid::IntegerBounds));
        }
        let range = (max as i128 - min as i128) as u64;
        let bits = bit_width(range);
        if bits > 56 && bits < 64 {
            return Err(Error::Unimplemented(Unimplemented::IntegerBits(bits)));
        }
        Ok(IntLoader { min, max, bits, scaled, stream: ByteStreamReadBuffer::new() })
    }

    /// Takes the next integer from the stream: the raw bits plus the minimum, or an error
    /// when they exceed the span of the field.
    pub fn load(&mut self) -> (r: Result<RecordValue, Error>)
        requires
            old(self).stream.wf(),
            old(self).min < old(self).max,
            old(self).bits == bits_for(int_range(old(self).min, old(self).max)),
            1 <= old(self).bits <= 64,
            old(self).stream.available_bits() >= old(self).bits,
        ensures
            final(self).stream.wf(),
            final(self).min == old(self).min,
            final(self).max == old(self).max,
            final(self).bits == old(self).bits,
            final(self).scaled == old(self).scaled,
            ({
                let raw = take_bits(old(self).stream.bits(), old(self).bits as nat);
                let range = int_range(old(self).min, old(self).max);
                &&& final(self).stream.bits() == drop_bits(old(self).stream.bits(), old(self).bits as nat)
                &&& final(self).stream.available_bits() == old(self).stream.available_bits() - old(self).bits
                &&& match r {
                    Ok(v) => raw <= range && v == (if old(self).scaled {
                        RecordValue::ScaledInteger((old(self).min + raw) as i64)
                    } else {
                        RecordValue::Integer((old(self).min + raw) as i64)
                    }),
                    Err(e) => raw > range && e == Error::Invalid(Invalid::ValueOutOfRange),
                }
            }),
    {
        let raw = match self.stream.extract_int(self.bits) {
            Some(raw) => raw,
            None => return Err(Error::Read),
        };
        let range = (self.max as i128 - self.min as i128) as u64;
        if raw > range {
            return Err(Error::Invalid(Invalid::ValueOutOfRange));
        }
        let value = (self.min as i128 + raw as i128) as i64;
        if self.scaled {
            Ok(RecordValue::ScaledInteger(value))
        } else {
            Ok(RecordValue::Integer(value))
        }
    }
}

} // verus!
